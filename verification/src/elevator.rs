//! One elevator: a cabin, a door, the passengers aboard and the queue of floors
//! still to visit.
//!
//! `ElevatorView` is the elevator as a mathematical value, and its spec
//! functions say what each operation does to it. `Elevator` is the executable
//! elevator; every method is proved to do to its view what the model says.
use std::collections::VecDeque;
use vstd::prelude::*;
use crate::passenger::{
    all_valid, any_riding_to, any_waiting_at, anyone_rides_to, anyone_waits_at, distinct_ids,
    Passenger,
};
use crate::scan::{lemma_scan_sorted, lemma_with_stop, scan_sorted, with_stop};
use crate::state::{CabinState, ConfigError, DoorState, PassengerState};

verus! {

/// Ticks that an open door waits before it closes on a cabin with room left.
pub const MIN_DWELL_TICKS: u32 = 1;

/// Ticks after which an open door closes whatever the load of the cabin.
pub const MAX_DWELL_TICKS: u32 = 5;

/// An elevator as a mathematical value.
pub struct ElevatorView {
    pub cabin: CabinState,
    pub door: DoorState,
    /// The passengers aboard, in the order in which they boarded.
    pub passengers: Seq<Passenger>,
    /// The floors still to visit; the first is the next stop.
    pub destinations: Seq<i32>,
    pub capacity: nat,
    /// Ticks that the door has been open for.
    pub door_timer: nat,
    pub floor_count: int,
}

/// The passengers that stay aboard when the cabin unloads at `floor`.
pub open spec fn stays_aboard(floor: i32) -> spec_fn(Passenger) -> bool {
    |p: Passenger| p.destination != floor
}

/// The passengers that leave the cabin when it unloads at `floor`.
pub open spec fn gets_off(floor: i32) -> spec_fn(Passenger) -> bool {
    |p: Passenger| p.destination == floor
}

/// The ids of the passengers, in order.
pub open spec fn ids_of(passengers: Seq<Passenger>) -> Seq<usize> {
    passengers.map_values(|p: Passenger| p.id)
}

impl ElevatorView {
    /// The floor that counts as the cabin's position.
    pub open spec fn floor(self) -> i32 {
        self.cabin.floor()
    }

    /// No further passenger fits.
    pub open spec fn is_full(self) -> bool {
        self.passengers.len() >= self.capacity
    }

    /// What always holds of an elevator.
    ///
    /// The cabin is inside the building and the door is closed unless the cabin
    /// holds. The load is within the capacity. Everyone aboard is riding, has
    /// an id of their own and a destination that is queued. The queue names no
    /// floor twice and none outside the building. Once the door has opened,
    /// nobody aboard wants to get off at this floor. The dwell counter runs
    /// only while the door is open and stays below the dwell limit.
    pub open spec fn wf(self) -> bool {
        &&& 1 <= self.floor_count <= i32::MAX
        &&& 1 <= self.capacity <= usize::MAX
        &&& self.cabin.within(self.floor_count)
        &&& (self.door != DoorState::Closed ==> self.cabin is Holding)
        &&& self.passengers.len() <= self.capacity
        &&& all_valid(self.passengers, self.floor_count)
        &&& distinct_ids(self.passengers)
        &&& forall|i: int|
            0 <= i < self.passengers.len() ==> {
                &&& (#[trigger] self.passengers[i]).state == PassengerState::InCabin
                &&& self.destinations.contains(self.passengers[i].destination)
            }
        &&& self.destinations.no_duplicates()
        &&& forall|i: int|
            0 <= i < self.destinations.len() ==> 0 <= #[trigger] self.destinations[i]
                < self.floor_count
        &&& (self.door == DoorState::Open || self.door == DoorState::Closing ==> !anyone_rides_to(
            self.passengers,
            self.floor(),
        ))
        &&& self.door_timer < MAX_DWELL_TICKS
        &&& (self.door != DoorState::Open ==> self.door_timer == 0)
    }

    /// An empty elevator that stands at `starting_floor` with its door closed.
    pub open spec fn initial(starting_floor: i32, floor_count: i32, capacity: usize) -> ElevatorView {
        ElevatorView {
            cabin: CabinState::Standing(starting_floor),
            door: DoorState::Closed,
            passengers: Seq::empty(),
            destinations: Seq::empty(),
            capacity: capacity as nat,
            door_timer: 0,
            floor_count: floor_count as int,
        }
    }

    /// Why an elevator is refused, if it is: a building without floors comes
    /// first, then a cabin without room, then a starting floor outside the
    /// building.
    pub open spec fn refusal(starting_floor: i32, floor_count: i32, capacity: usize) -> Option<
        ConfigError,
    > {
        if floor_count < 1 {
            Some(ConfigError::NoFloors)
        } else if capacity < 1 {
            Some(ConfigError::NoCapacity)
        } else if starting_floor < 0 || starting_floor >= floor_count {
            Some(ConfigError::FloorOutOfRange)
        } else {
            None
        }
    }

    /// The elevator with its queue put in sweep order, seen from its floor.
    pub open spec fn sorted(self) -> ElevatorView {
        ElevatorView { destinations: scan_sorted(self.destinations, self.floor()), ..self }
    }

    /// The elevator after `stop` has been asked for: a stop that is already
    /// queued changes nothing, a new one is queued and the queue sorted again.
    pub open spec fn with_destination(self, stop: i32) -> ElevatorView {
        ElevatorView { destinations: with_stop(self.destinations, self.floor(), stop), ..self }
    }

    /// The elevator with `stop` taken out of its queue.
    pub open spec fn without_destination(self, stop: i32) -> ElevatorView {
        ElevatorView { destinations: self.destinations.remove_value(stop), ..self }
    }

    /// A stop at `floor` has a reason: someone aboard rides there, or someone
    /// waits there.
    pub open spec fn warranted(self, waiting: Seq<Passenger>, floor: i32) -> bool {
        anyone_rides_to(self.passengers, floor) || anyone_waits_at(waiting, floor)
    }

    /// The elevator after everyone bound for `floor` has left the cabin.
    pub open spec fn unloaded(self, floor: i32) -> ElevatorView {
        ElevatorView { passengers: self.passengers.filter(stays_aboard(floor)), ..self }
    }

    /// The ids of those who leave the cabin at `floor`, in boarding order.
    pub open spec fn leaving(self, floor: i32) -> Seq<usize> {
        ids_of(self.passengers.filter(gets_off(floor)))
    }

    /// The elevator after `p` has boarded: `p` rides, and its destination has
    /// been asked for.
    pub open spec fn admitted(self, p: Passenger) -> ElevatorView {
        ElevatorView {
            passengers: self.passengers.push(p.boarded()),
            ..self.with_destination(p.destination)
        }
    }

    /// The elevator, and those still waiting, after the first `k` of `waiting`
    /// have been looked at in turn: one that waits on `floor` boards if the
    /// cabin has room at that moment, and everyone else goes on waiting.
    pub open spec fn loaded(self, waiting: Seq<Passenger>, floor: i32, k: nat) -> (
        ElevatorView,
        Seq<Passenger>,
    )
        decreases k,
    {
        if k == 0 {
            (self, Seq::empty())
        } else {
            let (e, left) = self.loaded(waiting, floor, (k - 1) as nat);
            let p = waiting[k - 1];
            if p.waits_at(floor) && !e.is_full() {
                (e.admitted(p), left)
            } else {
                (e, left.push(p))
            }
        }
    }

    /// The passenger exchange at `floor`: first everyone bound for `floor`
    /// leaves, then those waiting there board, first come first served, while
    /// the cabin has room. The second part of the result is who still waits.
    pub open spec fn exchanged(self, waiting: Seq<Passenger>, floor: i32) -> (
        ElevatorView,
        Seq<Passenger>,
    ) {
        self.unloaded(floor).loaded(waiting, floor, waiting.len())
    }

    /// An open door closes after `ticks` ticks: the cabin has room and the
    /// minimum dwell has passed, or the dwell limit is reached.
    pub open spec fn closes_after(self, ticks: nat) -> bool {
        (ticks >= MIN_DWELL_TICKS && !self.is_full()) || ticks >= MAX_DWELL_TICKS
    }

    /// The floor that a cabin moving from `from` to `to` reaches next.
    pub open spec fn next_floor(from: i32, to: i32) -> i32 {
        if from < to {
            (from + 1) as i32
        } else {
            (from - 1) as i32
        }
    }

    /// One tick of the elevator, given those who wait in the building. The
    /// second part of the result is who still waits afterwards.
    ///
    /// A standing cabin looks at the first stop of its queue: it drops a stop
    /// that has no reason left, starts to hold if the stop is its own floor,
    /// and sets off towards it otherwise. A moving cabin arrives one floor
    /// further; at its target it holds if the stop still has a reason, and
    /// otherwise forgets the stop and stands. A holding cabin moves its door
    /// one step: the exchange of passengers takes place as the door comes
    /// open, and as the door comes closed the floor leaves the queue and the
    /// cabin stands.
    pub open spec fn stepped(self, waiting: Seq<Passenger>) -> (ElevatorView, Seq<Passenger>) {
        match self.cabin {
            CabinState::Standing(floor) => {
                if self.door == DoorState::Closed && self.destinations.len() > 0 {
                    let next = self.destinations[0];
                    if !self.warranted(waiting, next) {
                        (
                            ElevatorView { destinations: self.destinations.drop_first(), ..self },
                            waiting,
                        )
                    } else if next == floor {
                        (
                            ElevatorView {
                                cabin: CabinState::Holding(floor),
                                door: DoorState::Opening,
                                ..self
                            },
                            waiting,
                        )
                    } else {
                        (ElevatorView { cabin: CabinState::Moving(floor, next), ..self }, waiting)
                    }
                } else {
                    (self, waiting)
                }
            },
            CabinState::Moving(from, to) => {
                let reached = Self::next_floor(from, to);
                if reached != to {
                    (ElevatorView { cabin: CabinState::Standing(reached), ..self }, waiting)
                } else if self.warranted(waiting, to) {
                    (ElevatorView { cabin: CabinState::Holding(to), ..self }, waiting)
                } else {
                    (
                        ElevatorView {
                            cabin: CabinState::Standing(to),
                            ..self.without_destination(to)
                        },
                        waiting,
                    )
                }
            },
            CabinState::Holding(floor) => match self.door {
                DoorState::Closed => (ElevatorView { door: DoorState::Opening, ..self }, waiting),
                DoorState::Opening => {
                    let (e, left) = self.exchanged(waiting, floor);
                    (ElevatorView { door: DoorState::Open, door_timer: 0, ..e }, left)
                },
                DoorState::Open => {
                    let ticks = self.door_timer + 1;
                    if self.closes_after(ticks) {
                        (ElevatorView { door: DoorState::Closing, door_timer: 0, ..self }, waiting)
                    } else {
                        (ElevatorView { door_timer: ticks, ..self }, waiting)
                    }
                },
                DoorState::Closing => (
                    ElevatorView {
                        cabin: CabinState::Standing(floor),
                        door: DoorState::Closed,
                        door_timer: 0,
                        ..self.without_destination(floor)
                    },
                    waiting,
                ),
            },
        }
    }

    /// The ids of those who leave the cabin during the tick that `stepped`
    /// describes: the passengers bound for the cabin's floor if the door comes
    /// open in this tick, and nobody otherwise.
    pub open spec fn step_exits(self) -> Seq<usize> {
        if self.cabin is Holding && self.door == DoorState::Opening {
            self.leaving(self.floor())
        } else {
            Seq::empty()
        }
    }
}

/// An elevator.
#[derive(Debug)]
pub struct Elevator {
    cabin_state: CabinState,
    door_state: DoorState,
    passengers: Vec<Passenger>,
    destinations: VecDeque<i32>,
    max_capacity: usize,
    door_timer: u32,
    floor_count: i32,
}

impl View for Elevator {
    type V = ElevatorView;

    closed spec fn view(&self) -> ElevatorView {
        ElevatorView {
            cabin: self.cabin_state,
            door: self.door_state,
            passengers: self.passengers@,
            destinations: self.destinations@,
            capacity: self.max_capacity as nat,
            door_timer: self.door_timer as nat,
            floor_count: self.floor_count as int,
        }
    }
}

impl Elevator {
    /// An empty elevator for `capacity` passengers that stands at
    /// `starting_floor` of a building with `floor_count` floors, door closed.
    pub fn new(starting_floor: i32, floor_count: i32, capacity: usize) -> (e: Elevator)
        requires
            0 <= starting_floor < floor_count,
            capacity >= 1,
        ensures
            e@ == ElevatorView::initial(starting_floor, floor_count, capacity),
            e@.wf(),
    {
        Elevator {
            cabin_state: CabinState::Standing(starting_floor),
            door_state: DoorState::Closed,
            passengers: Vec::new(),
            destinations: VecDeque::new(),
            max_capacity: capacity,
            door_timer: 0,
            floor_count,
        }
    }

    /// An empty elevator as `new` makes it, or the reason why there is no
    /// such elevator.
    pub fn try_new(starting_floor: i32, floor_count: i32, capacity: usize) -> (r: Result<
        Elevator,
        ConfigError,
    >)
        ensures
            match r {
                Ok(e) => {
                    &&& ElevatorView::refusal(starting_floor, floor_count, capacity) is None
                    &&& e@ == ElevatorView::initial(starting_floor, floor_count, capacity)
                    &&& e@.wf()
                },
                Err(e) => ElevatorView::refusal(starting_floor, floor_count, capacity) == Some(e),
            },
    {
        if floor_count < 1 {
            Err(ConfigError::NoFloors)
        } else if capacity < 1 {
            Err(ConfigError::NoCapacity)
        } else if starting_floor < 0 || starting_floor >= floor_count {
            Err(ConfigError::FloorOutOfRange)
        } else {
            Ok(Elevator::new(starting_floor, floor_count, capacity))
        }
    }

    /// The state of the cabin.
    pub fn cabin_state(&self) -> (c: CabinState)
        ensures
            c == self@.cabin,
    {
        self.cabin_state
    }

    /// The state of the door.
    pub fn door_state(&self) -> (d: DoorState)
        ensures
            d == self@.door,
    {
        self.door_state
    }

    /// The passengers aboard, in boarding order.
    pub fn passengers(&self) -> (p: &Vec<Passenger>)
        ensures
            p@ == self@.passengers,
    {
        &self.passengers
    }

    /// The floors still to visit, next stop first.
    pub fn destinations(&self) -> (d: &VecDeque<i32>)
        ensures
            d@ == self@.destinations,
    {
        &self.destinations
    }

    /// The number of passengers that the cabin takes.
    pub fn capacity(&self) -> (c: usize)
        ensures
            c == self@.capacity,
    {
        self.max_capacity
    }

    /// The number of floors of the building.
    pub fn floor_count(&self) -> (n: i32)
        ensures
            n == self@.floor_count,
    {
        self.floor_count
    }

    /// Ticks that the door has been open for.
    pub fn door_timer(&self) -> (t: u32)
        ensures
            t == self@.door_timer,
    {
        self.door_timer
    }

    /// Whether the cabin has no room left.
    pub fn is_full(&self) -> (full: bool)
        ensures
            full == self@.is_full(),
    {
        self.passengers.len() >= self.max_capacity
    }

    /// Puts the queue in sweep order, seen from the cabin's floor.
    pub fn sort_destinations(&mut self)
        requires
            old(self)@.wf(),
        ensures
            final(self)@ == old(self)@.sorted(),
            final(self)@.wf(),
    {
        let floor = self.cabin_state.current_floor();
        proof {
            lemma_scan_sorted(self.destinations@, floor);
            lemma_sorted_wf(self@);
        }
        self.destinations = crate::scan::sorted(&self.destinations, floor);
    }

    /// Asks the elevator to stop at `floor`. A floor that is already queued is
    /// not queued again; a new one is queued and the queue is put in sweep
    /// order.
    pub fn add_destination(&mut self, floor: i32)
        requires
            old(self)@.wf(),
            0 <= floor < old(self)@.floor_count,
        ensures
            final(self)@ == old(self)@.with_destination(floor),
            final(self)@.wf(),
    {
        proof {
            lemma_with_destination_wf(self@, floor);
        }
        if !crate::scan::holds(&self.destinations, floor) {
            self.destinations.push_back(floor);
            let here = self.cabin_state.current_floor();
            self.destinations = crate::scan::sorted(&self.destinations, here);
        }
    }

    /// Whether a stop at `floor` has a reason: someone aboard rides there, or
    /// someone of `waiting` waits there.
    pub fn is_warranted(&self, waiting: &Vec<Passenger>, floor: i32) -> (r: bool)
        ensures
            r == self@.warranted(waiting@, floor),
    {
        any_riding_to(&self.passengers, floor) || any_waiting_at(waiting, floor)
    }

    /// Takes `stop` out of the queue, if it is there.
    fn remove_destination(&mut self, stop: i32)
        ensures
            final(self)@ == old(self)@.without_destination(stop),
    {
        let mut i: usize = 0;
        while i < self.destinations.len()
            invariant
                i <= self.destinations@.len(),
                *self == *old(self),
                forall|j: int| 0 <= j < i ==> self.destinations@[j] != stop,
            decreases self.destinations@.len() - i,
        {
            if self.destinations[i] == stop {
                proof {
                    self.destinations@.index_of_first_ensures(stop);
                }
                self.destinations.remove(i);
                return ;
            }
            i += 1;
        }
        proof {
            self.destinations@.index_of_first_ensures(stop);
        }
    }

    /// The passenger exchange of a cabin that holds at `current_floor`.
    ///
    /// First everyone aboard who rides to this floor leaves. Then those of
    /// `waiting` who wait on this floor board in the order of the list, as
    /// long as the cabin has room; each one who boards rides from then on, and
    /// its destination is asked for. Those who did not board remain in
    /// `waiting`, in order. The result holds the ids of those who left.
    fn handle_passenger_exchange(&mut self, current_floor: i32, waiting: &mut Vec<Passenger>) -> (exited:
        Vec<usize>)
        requires
            old(self)@.wf(),
            old(self)@.cabin == CabinState::Holding(current_floor),
            all_valid(old(waiting)@, old(self)@.floor_count),
            distinct_ids(old(self)@.passengers + old(waiting)@),
        ensures
            final(self)@ == old(self)@.exchanged(old(waiting)@, current_floor).0,
            final(waiting)@ == old(self)@.exchanged(old(waiting)@, current_floor).1,
            exited@ == old(self)@.leaving(current_floor),
            final(self)@.wf(),
            !anyone_rides_to(final(self)@.passengers, current_floor),
    {
        let ghost before = self@;
        let ghost queue = waiting@;
        let mut exited: Vec<usize> = Vec::new();
        let mut staying: Vec<Passenger> = Vec::new();
        let mut i: usize = 0;
        proof {
            reveal(Seq::filter);
            assert(before.passengers.take(0).filter(stays_aboard(current_floor)) =~= staying@);
            assert(ids_of(before.passengers.take(0).filter(gets_off(current_floor))) =~= exited@);
        }
        while i < self.passengers.len()
            invariant
                i <= self.passengers@.len(),
                self@ == before,
                staying@ == before.passengers.take(i as int).filter(stays_aboard(current_floor)),
                exited@ == ids_of(before.passengers.take(i as int).filter(gets_off(current_floor))),
            decreases self.passengers@.len() - i,
        {
            let p = self.passengers[i];
            proof {
                let seen = before.passengers.take(i as int);
                assert(before.passengers.take(i + 1) =~= seen.push(p));
                seen.lemma_filter_push(p, stays_aboard(current_floor));
                seen.lemma_filter_push(p, gets_off(current_floor));
                assert(ids_of(seen.filter(gets_off(current_floor)).push(p)) =~= ids_of(
                    seen.filter(gets_off(current_floor)),
                ).push(p.id));
            }
            if p.destination == current_floor {
                exited.push(p.id);
            } else {
                staying.push(p);
            }
            i += 1;
        }
        proof {
            assert(before.passengers.take(i as int) =~= before.passengers);
            lemma_unloaded(before);
            lemma_unloaded_apart(before, queue);
        }
        self.passengers = staying;
        let ghost unloaded = self@;
        let mut left: Vec<Passenger> = Vec::new();
        let mut k: usize = 0;
        while k < waiting.len()
            invariant
                k <= waiting@.len(),
                waiting@ == queue,
                unloaded == before.unloaded(current_floor),
                unloaded.wf(),
                unloaded.floor() == current_floor,
                all_valid(queue, unloaded.floor_count),
                distinct_ids(unloaded.passengers + queue),
                !anyone_rides_to(unloaded.passengers, current_floor),
                self@ == unloaded.loaded(queue, current_floor, k as nat).0,
                left@ == unloaded.loaded(queue, current_floor, k as nat).1,
            decreases waiting@.len() - k,
        {
            let p = waiting[k];
            proof {
                lemma_loaded(unloaded, queue, k as nat);
                lemma_loaded(unloaded, queue, (k + 1) as nat);
            }
            if p.is_waiting_at(current_floor) && !self.is_full() {
                self.add_destination(p.destination);
                self.passengers.push(Passenger { state: PassengerState::InCabin, ..p });
            } else {
                left.push(p);
            }
            k += 1;
        }
        proof {
            lemma_loaded(unloaded, queue, k as nat);
        }
        *waiting = left;
        exited
    }

    /// Advances the elevator by one tick. `waiting` holds those who wait in the
    /// building; whoever boards in this tick leaves the list. The result holds
    /// the ids of those who reached their destination and left the cabin.
    pub fn step(&mut self, waiting: &mut Vec<Passenger>) -> (exited: Vec<usize>)
        requires
            old(self)@.wf(),
            all_valid(old(waiting)@, old(self)@.floor_count),
            distinct_ids(old(self)@.passengers + old(waiting)@),
        ensures
            final(self)@ == old(self)@.stepped(old(waiting)@).0,
            final(waiting)@ == old(self)@.stepped(old(waiting)@).1,
            exited@ == old(self)@.step_exits(),
            final(self)@.wf(),
            final(self)@.capacity == old(self)@.capacity,
            final(self)@.floor_count == old(self)@.floor_count,
            all_valid(final(waiting)@, final(self)@.floor_count),
            distinct_ids(final(self)@.passengers + final(waiting)@),
    {
        proof {
            lemma_stepped(self@, waiting@);
        }
        match self.cabin_state {
            CabinState::Standing(floor) => {
                if self.door_state == DoorState::Closed && self.destinations.len() > 0 {
                    let next = self.destinations[0];
                    if !self.is_warranted(waiting, next) {
                        self.destinations.pop_front();
                    } else if next == floor {
                        self.cabin_state = CabinState::Holding(floor);
                        self.door_state = DoorState::Opening;
                    } else {
                        self.cabin_state = CabinState::Moving(floor, next);
                    }
                }
                Vec::new()
            },
            CabinState::Moving(from, to) => {
                let reached = if from < to {
                    from + 1
                } else {
                    from - 1
                };
                if reached != to {
                    self.cabin_state = CabinState::Standing(reached);
                } else if self.is_warranted(waiting, to) {
                    self.cabin_state = CabinState::Holding(to);
                } else {
                    self.remove_destination(to);
                    self.cabin_state = CabinState::Standing(to);
                }
                Vec::new()
            },
            CabinState::Holding(floor) => match self.door_state {
                DoorState::Closed => {
                    self.door_state = DoorState::Opening;
                    Vec::new()
                },
                DoorState::Opening => {
                    let exited = self.handle_passenger_exchange(floor, waiting);
                    self.door_state = DoorState::Open;
                    self.door_timer = 0;
                    exited
                },
                DoorState::Open => {
                    let ticks = self.door_timer + 1;
                    if (ticks >= MIN_DWELL_TICKS && !self.is_full()) || ticks >= MAX_DWELL_TICKS {
                        self.door_state = DoorState::Closing;
                        self.door_timer = 0;
                    } else {
                        self.door_timer = ticks;
                    }
                    Vec::new()
                },
                DoorState::Closing => {
                    self.remove_destination(floor);
                    self.door_state = DoorState::Closed;
                    self.cabin_state = CabinState::Standing(floor);
                    Vec::new()
                },
            },
        }
    }
}

/// Some passenger of `pool` has the id `id`.
pub open spec fn id_in(id: usize, pool: Seq<Passenger>) -> bool {
    exists|j: int| 0 <= j < pool.len() && (#[trigger] pool[j]).id == id
}

/// Every passenger of `group` has the id of some passenger of `pool`.
pub open spec fn drawn_from(group: Seq<Passenger>, pool: Seq<Passenger>) -> bool {
    forall|i: int| 0 <= i < group.len() ==> id_in((#[trigger] group[i]).id, pool)
}

/// A selection of passengers holds only passengers of the sequence, all of
/// which meet the condition, and keeps their ids apart.
pub proof fn lemma_selection(s: Seq<Passenger>, pred: spec_fn(Passenger) -> bool)
    ensures
        s.filter(pred).len() <= s.len(),
        forall|i: int|
            0 <= i < s.filter(pred).len() ==> pred(#[trigger] s.filter(pred)[i]) && s.contains(
                s.filter(pred)[i],
            ),
        forall|i: int| 0 <= i < s.len() && pred(s[i]) ==> s.filter(pred).contains(#[trigger] s[i]),
        distinct_ids(s) ==> distinct_ids(s.filter(pred)),
    decreases s.len(),
{
    reveal(Seq::filter);
    if s.len() > 0 {
        let t = s.drop_last();
        lemma_selection(t, pred);
        let f = s.filter(pred);
        let ft = t.filter(pred);
        assert forall|i: int| 0 <= i < f.len() implies pred(#[trigger] f[i]) && s.contains(
            f[i],
        ) by {
            if i < ft.len() {
                assert(t.contains(ft[i]));
                let j = choose|j: int| 0 <= j < t.len() && t[j] == ft[i];
                assert(s[j] == ft[i]);
            } else {
                assert(s[s.len() - 1] == f[i]);
            }
        }
        assert forall|i: int| 0 <= i < s.len() && pred(s[i]) implies f.contains(
            #[trigger] s[i],
        ) by {
            if i < t.len() {
                assert(t[i] == s[i]);
                assert(ft.contains(t[i]));
                let j = choose|j: int| 0 <= j < ft.len() && ft[j] == t[i];
                assert(f[j] == s[i]);
            } else {
                assert(f[f.len() - 1] == s[i]);
            }
        }
        if distinct_ids(s) {
            assert(distinct_ids(t)) by {
                assert forall|i: int, j: int| 0 <= i < j < t.len() implies (#[trigger] t[i]).id != (
                #[trigger] t[j]).id by {
                    assert(s[i].id != s[j].id);
                }
            }
            assert forall|i: int, j: int| 0 <= i < j < f.len() implies (#[trigger] f[i]).id != (
            #[trigger] f[j]).id by {
                if j >= ft.len() {
                    assert(t.contains(ft[i]));
                    let k = choose|k: int| 0 <= k < t.len() && t[k] == ft[i];
                    assert(s[k].id != s[s.len() - 1].id);
                }
            }
        }
    }
}

/// Taking a stop out of a queue without duplicates removes that stop and
/// nothing else.
pub proof fn lemma_remove_value(queue: Seq<i32>, stop: i32)
    requires
        queue.no_duplicates(),
    ensures
        queue.remove_value(stop).no_duplicates(),
        !queue.remove_value(stop).contains(stop),
        forall|x: i32|
            x != stop ==> (#[trigger] queue.remove_value(stop).contains(x) <==> queue.contains(x)),
        forall|i: int|
            0 <= i < queue.remove_value(stop).len() ==> queue.contains(
                #[trigger] queue.remove_value(stop)[i],
            ),
{
    queue.index_of_first_ensures(stop);
    let rest = queue.remove_value(stop);
    match queue.index_of_first(stop) {
        Some(k) => {
            assert forall|i: int| 0 <= i < rest.len() implies queue.contains(
                #[trigger] rest[i],
            ) && rest[i] != stop by {
                if i < k {
                    assert(rest[i] == queue[i]);
                } else {
                    assert(rest[i] == queue[i + 1]);
                }
            }
            assert forall|x: i32| x != stop && queue.contains(x) implies #[trigger] rest.contains(
                x,
            ) by {
                let j = choose|j: int| 0 <= j < queue.len() && queue[j] == x;
                if j < k {
                    assert(rest[j] == x);
                } else {
                    assert(rest[j - 1] == x);
                }
            }
            assert forall|i: int, j: int| 0 <= i < rest.len() && 0 <= j < rest.len() && i
                != j implies rest[i] != rest[j] by {
                let a = if i < k { i } else { i + 1 };
                let b = if j < k { j } else { j + 1 };
                assert(rest[i] == queue[a] && rest[j] == queue[b]);
            }
        },
        None => {},
    }
}

/// Unloading at the cabin's own floor keeps an elevator well formed, and
/// leaves nobody aboard who rides to that floor.
pub proof fn lemma_unloaded(e: ElevatorView)
    requires
        e.wf(),
    ensures
        e.unloaded(e.floor()).wf(),
        !anyone_rides_to(e.unloaded(e.floor()).passengers, e.floor()),
        drawn_from(e.unloaded(e.floor()).passengers, e.passengers),
        forall|i: int|
            0 <= i < e.unloaded(e.floor()).passengers.len() ==> e.passengers.contains(
                #[trigger] e.unloaded(e.floor()).passengers[i],
            ),
{
    let floor = e.floor();
    let u = e.unloaded(floor);
    lemma_selection(e.passengers, stays_aboard(floor));
    assert forall|i: int| 0 <= i < u.passengers.len() implies {
        &&& (#[trigger] u.passengers[i]).wf()
        &&& u.passengers[i].within(u.floor_count)
        &&& u.passengers[i].state == PassengerState::InCabin
        &&& u.destinations.contains(u.passengers[i].destination)
        &&& u.passengers[i].destination != floor
        &&& id_in(u.passengers[i].id, e.passengers)
    } by {
        assert(stays_aboard(floor)(u.passengers[i]));
        assert(e.passengers.contains(u.passengers[i]));
        let j = choose|j: int| 0 <= j < e.passengers.len() && e.passengers[j] == u.passengers[i];
        assert(e.passengers[j].wf());
    }
}

/// Those who stay aboard at the cabin's floor and those who wait were aboard
/// or waiting before the cabin unloaded, and no two of them share an id.
pub proof fn lemma_unloaded_apart(e: ElevatorView, waiting: Seq<Passenger>)
    requires
        e.wf(),
        distinct_ids(e.passengers + waiting),
    ensures
        distinct_ids(e.unloaded(e.floor()).passengers + waiting),
        drawn_from(e.unloaded(e.floor()).passengers + waiting, e.passengers + waiting),
{
    let floor = e.floor();
    let u = e.unloaded(floor);
    lemma_unloaded(e);
    let before = e.passengers + waiting;
    let between = u.passengers + waiting;
    let m = u.passengers.len() as int;
    let n = e.passengers.len() as int;
    assert forall|i: int| 0 <= i < between.len() implies id_in((#[trigger] between[i]).id, before) by {
        if i < m {
            assert(id_in(u.passengers[i].id, e.passengers));
            let j = choose|j: int| 0 <= j < n && e.passengers[j].id == u.passengers[i].id;
            assert(before[j] == e.passengers[j]);
        } else {
            assert(before[i - m + n] == between[i]);
        }
    }
    assert forall|i: int, j: int| 0 <= i < j < between.len() implies (#[trigger] between[i]).id != (
    #[trigger] between[j]).id by {
        if j < m {
            assert(u.passengers[i].id != u.passengers[j].id);
        } else if i < m {
            assert(e.passengers.contains(u.passengers[i]));
            let a = choose|a: int| 0 <= a < n && e.passengers[a] == u.passengers[i];
            assert(before[a] == e.passengers[a]);
            assert(before[j - m + n] == between[j]);
        } else {
            assert(before[i - m + n] == between[i]);
            assert(before[j - m + n] == between[j]);
        }
    }
}

/// Boarding keeps an elevator well formed. Whoever is aboard or still waits
/// afterwards was aboard or among the first `k` waiting before, and no two of
/// them share an id.
pub proof fn lemma_loaded(e: ElevatorView, waiting: Seq<Passenger>, k: nat)
    requires
        e.wf(),
        k <= waiting.len(),
        all_valid(waiting, e.floor_count),
        distinct_ids(e.passengers + waiting),
        !anyone_rides_to(e.passengers, e.floor()),
    ensures
        ({
            let (e2, left) = e.loaded(waiting, e.floor(), k);
            &&& e2.wf()
            &&& e2.cabin == e.cabin
            &&& e2.door == e.door
            &&& e2.capacity == e.capacity
            &&& e2.floor_count == e.floor_count
            &&& e2.door_timer == e.door_timer
            &&& !anyone_rides_to(e2.passengers, e.floor())
            &&& all_valid(left, e.floor_count)
            &&& distinct_ids(e2.passengers + left)
            &&& drawn_from(e2.passengers + left, e.passengers + waiting.take(k as int))
            &&& forall|i: int| 0 <= i < left.len() ==> waiting.contains(#[trigger] left[i])
            &&& e2.passengers.len() + left.len() == e.passengers.len() + k
        }),
    decreases k,
{
    let floor = e.floor();
    let (e2, left) = e.loaded(waiting, floor, k);
    if k == 0 {
        assert(e2.passengers + left =~= e.passengers);
        assert(e.passengers + waiting.take(0) =~= e.passengers);
        assert(distinct_ids(e.passengers)) by {
            assert forall|i: int, j: int| 0 <= i < j < e.passengers.len() implies (
            #[trigger] e.passengers[i]).id != (#[trigger] e.passengers[j]).id by {
                assert((e.passengers + waiting)[i] == e.passengers[i]);
                assert((e.passengers + waiting)[j] == e.passengers[j]);
            }
        }
    } else {
        let (e1, left1) = e.loaded(waiting, floor, (k - 1) as nat);
        lemma_loaded(e, waiting, (k - 1) as nat);
        let p = waiting[k - 1];
        let all = e.passengers + waiting;
        let pool1 = e.passengers + waiting.take(k - 1);
        let pool = e.passengers + waiting.take(k as int);
        let group1 = e1.passengers + left1;
        let group = e2.passengers + left;
        assert(pool[pool.len() - 1] == p);
        assert(all[e.passengers.len() + k - 1] == p);
        assert(p.wf() && p.within(e.floor_count));
        // Nobody looked at before has the id of `p`.
        assert forall|i: int| 0 <= i < group1.len() implies (#[trigger] group1[i]).id != p.id by {
            assert(id_in(group1[i].id, pool1));
            let j = choose|j: int| 0 <= j < pool1.len() && pool1[j].id == group1[i].id;
            assert(pool1[j] == all[j]);
        }
        assert forall|i: int| 0 <= i < group1.len() implies id_in((#[trigger] group1[i]).id, pool) by {
            assert(id_in(group1[i].id, pool1));
            let j = choose|j: int| 0 <= j < pool1.len() && pool1[j].id == group1[i].id;
            assert(pool[j] == pool1[j]);
        }
        if p.waits_at(floor) && !e1.is_full() {
            let pb = p.boarded();
            lemma_with_destination_wf(e1, p.destination);
            lemma_with_stop(e1.destinations, e1.floor(), p.destination);
            assert(e2.destinations.contains(p.destination));
            assert forall|i: int| 0 <= i < e2.passengers.len() implies {
                &&& (#[trigger] e2.passengers[i]).wf()
                &&& e2.passengers[i].within(e2.floor_count)
                &&& e2.passengers[i].state == PassengerState::InCabin
                &&& e2.destinations.contains(e2.passengers[i].destination)
                &&& e2.passengers[i].destination != floor
            } by {
                if i < e1.passengers.len() {
                    assert(e2.passengers[i] == e1.passengers[i]);
                    assert(e1.destinations.contains(e1.passengers[i].destination));
                }
            }
            assert forall|i: int| 0 <= i < group.len() implies id_in((#[trigger] group[i]).id, pool) by {
                if i < e1.passengers.len() {
                    assert(group[i] == group1[i]);
                } else if i == e1.passengers.len() {
                    assert(group[i] == pb);
                    assert(pool[pool.len() - 1].id == pb.id);
                } else {
                    assert(group[i] == group1[i - 1]);
                }
            }
            assert forall|i: int, j: int| 0 <= i < j < group.len() implies (#[trigger] group[i]).id
                != (#[trigger] group[j]).id by {
                let m = e1.passengers.len() as int;
                let a = if i < m { i } else { i - 1 };
                let b = if j < m { j } else { j - 1 };
                if i != m {
                    assert(group[i] == group1[a]);
                }
                if j != m {
                    assert(group[j] == group1[b]);
                }
            }
            assert(distinct_ids(e2.passengers)) by {
                assert forall|i: int, j: int| 0 <= i < j < e2.passengers.len() implies (
                #[trigger] e2.passengers[i]).id != (#[trigger] e2.passengers[j]).id by {
                    assert(group[i] == e2.passengers[i]);
                    assert(group[j] == e2.passengers[j]);
                }
            }
        } else {
            assert(group =~= group1.push(p));
            assert forall|i: int| 0 <= i < left.len() implies {
                &&& (#[trigger] left[i]).wf()
                &&& left[i].within(e.floor_count)
                &&& waiting.contains(left[i])
            } by {
                if i < left1.len() {
                    assert(left[i] == left1[i]);
                    assert(waiting.contains(left1[i]));
                }
            }
            assert forall|i: int| 0 <= i < group.len() implies id_in((#[trigger] group[i]).id, pool) by {
                if i < group1.len() {
                    assert(group[i] == group1[i]);
                } else {
                    assert(pool[pool.len() - 1].id == group[i].id);
                }
            }
            assert forall|i: int, j: int| 0 <= i < j < group.len() implies (#[trigger] group[i]).id
                != (#[trigger] group[j]).id by {
                assert(group[i] == group1[i]);
                if j < group1.len() {
                    assert(group[j] == group1[j]);
                }
            }
        }
    }
}

/// The passenger exchange at the cabin's own floor keeps an elevator well
/// formed and changes neither cabin nor door. Whoever is aboard or still
/// waits afterwards was aboard or waiting before, and no two share an id.
pub proof fn lemma_exchanged(e: ElevatorView, waiting: Seq<Passenger>)
    requires
        e.wf(),
        all_valid(waiting, e.floor_count),
        distinct_ids(e.passengers + waiting),
    ensures
        ({
            let (e2, left) = e.exchanged(waiting, e.floor());
            &&& e2.wf()
            &&& e2.cabin == e.cabin
            &&& e2.door == e.door
            &&& e2.capacity == e.capacity
            &&& e2.floor_count == e.floor_count
            &&& e2.door_timer == e.door_timer
            &&& !anyone_rides_to(e2.passengers, e.floor())
            &&& all_valid(left, e.floor_count)
            &&& distinct_ids(e2.passengers + left)
            &&& drawn_from(e2.passengers + left, e.passengers + waiting)
            &&& forall|i: int| 0 <= i < left.len() ==> waiting.contains(#[trigger] left[i])
        }),
{
    let floor = e.floor();
    let u = e.unloaded(floor);
    let (e2, left) = e.exchanged(waiting, floor);
    let before = e.passengers + waiting;
    let between = u.passengers + waiting;
    lemma_unloaded(e);
    lemma_unloaded_apart(e, waiting);
    lemma_loaded(u, waiting, waiting.len());
    assert(waiting.take(waiting.len() as int) =~= waiting);
    let group = e2.passengers + left;
    assert forall|i: int| 0 <= i < group.len() implies id_in((#[trigger] group[i]).id, before) by {
        assert(id_in(group[i].id, between));
        let j = choose|j: int| 0 <= j < between.len() && between[j].id == group[i].id;
        assert(id_in(between[j].id, before));
    }
}

/// In an exchange everyone leaves the cabin before anyone boards: whoever was
/// aboard and bound for the cabin's floor is not aboard afterwards, whoever
/// boards in the same exchange, and nobody aboard afterwards rides to that
/// floor.
pub proof fn lemma_exchange_unloads_first(e: ElevatorView, waiting: Seq<Passenger>, i: int)
    requires
        e.wf(),
        all_valid(waiting, e.floor_count),
        distinct_ids(e.passengers + waiting),
        0 <= i < e.passengers.len(),
        e.passengers[i].destination == e.floor(),
    ensures
        !id_in(e.passengers[i].id, e.exchanged(waiting, e.floor()).0.passengers),
        !anyone_rides_to(e.exchanged(waiting, e.floor()).0.passengers, e.floor()),
{
    let floor = e.floor();
    let gone = e.passengers[i];
    let u = e.unloaded(floor);
    let (e2, left) = e.exchanged(waiting, floor);
    lemma_exchanged(e, waiting);
    lemma_unloaded(e);
    lemma_unloaded_apart(e, waiting);
    lemma_loaded(u, waiting, waiting.len());
    assert(waiting.take(waiting.len() as int) =~= waiting);
    let before = e.passengers + waiting;
    let between = u.passengers + waiting;
    let after = e2.passengers + left;
    assert(before[i] == gone);
    if id_in(gone.id, e2.passengers) {
        let a = choose|a: int| 0 <= a < e2.passengers.len() && e2.passengers[a].id == gone.id;
        assert(after[a] == e2.passengers[a]);
        assert(id_in(after[a].id, between));
        let b = choose|b: int| 0 <= b < between.len() && between[b].id == after[a].id;
        if b < u.passengers.len() {
            assert(between[b] == u.passengers[b]);
            assert(e.passengers.contains(u.passengers[b]));
            let c = choose|c: int| 0 <= c < e.passengers.len() && e.passengers[c] == u.passengers[b];
            assert(u.passengers[b].destination != floor);
            assert(c != i);
            assert(before[c] == e.passengers[c]);
        } else {
            let c = b - u.passengers.len() + e.passengers.len();
            assert(before[c] == between[b]);
        }
    }
}

/// Boarding loses nobody: whoever was aboard is still aboard, and each of the
/// first `k` waiting still waits or is aboard.
pub proof fn lemma_loaded_keeps(e: ElevatorView, waiting: Seq<Passenger>, floor: i32, k: nat)
    requires
        k <= waiting.len(),
    ensures
        ({
            let (e2, left) = e.loaded(waiting, floor, k);
            &&& forall|i: int|
                0 <= i < e.passengers.len() ==> e2.passengers.contains(#[trigger] e.passengers[i])
            &&& forall|i: int|
                0 <= i < k ==> left.contains(#[trigger] waiting[i]) || e2.passengers.contains(
                    waiting[i].boarded(),
                )
        }),
    decreases k,
{
    let (e2, left) = e.loaded(waiting, floor, k);
    if k == 0 {
        assert forall|i: int| 0 <= i < e.passengers.len() implies e2.passengers.contains(
            #[trigger] e.passengers[i],
        ) by {}
    } else {
        let (e1, left1) = e.loaded(waiting, floor, (k - 1) as nat);
        lemma_loaded_keeps(e, waiting, floor, (k - 1) as nat);
        let p = waiting[k - 1];
        assert forall|x: Passenger| e1.passengers.contains(x) implies e2.passengers.contains(x) by {
            let j = choose|j: int| 0 <= j < e1.passengers.len() && e1.passengers[j] == x;
            assert(e2.passengers[j] == x);
        }
        assert forall|x: Passenger| left1.contains(x) implies left.contains(x) by {
            let j = choose|j: int| 0 <= j < left1.len() && left1[j] == x;
            assert(left[j] == x);
        }
        if p.waits_at(floor) && !e1.is_full() {
            assert(e2.passengers[e1.passengers.len() as int] == p.boarded());
        } else {
            assert(left[left1.len() as int] == p);
        }
    }
}

/// A tick loses nobody. Whoever waited still waits or is aboard, and whoever
/// was aboard is still aboard, unless the cabin holds at the passenger's
/// destination and its door comes open in this tick.
pub proof fn lemma_stepped_keeps(e: ElevatorView, waiting: Seq<Passenger>)
    ensures
        ({
            let (e2, left) = e.stepped(waiting);
            &&& forall|i: int|
                0 <= i < waiting.len() ==> left.contains(#[trigger] waiting[i])
                    || e2.passengers.contains(waiting[i].boarded())
            &&& forall|i: int|
                0 <= i < e.passengers.len() ==> e2.passengers.contains(#[trigger] e.passengers[i])
                    || (e.cabin == CabinState::Holding(e.passengers[i].destination) && e.door
                    == DoorState::Opening)
        }),
{
    let (e2, left) = e.stepped(waiting);
    if e.cabin is Holding && e.door == DoorState::Opening {
        let floor = e.floor();
        let u = e.unloaded(floor);
        lemma_selection(e.passengers, stays_aboard(floor));
        lemma_loaded_keeps(u, waiting, floor, waiting.len());
        assert forall|i: int| 0 <= i < e.passengers.len() implies e2.passengers.contains(
            #[trigger] e.passengers[i],
        ) || e.cabin == CabinState::Holding(e.passengers[i].destination) by {
            let p = e.passengers[i];
            if p.destination != floor {
                assert(stays_aboard(floor)(p));
                assert(u.passengers.contains(p));
                let j = choose|j: int| 0 <= j < u.passengers.len() && u.passengers[j] == p;
                assert(e2.passengers.contains(u.passengers[j]));
            }
        }
    } else {
        assert(left == waiting);
        assert(e2.passengers == e.passengers);
        assert forall|i: int| 0 <= i < waiting.len() implies left.contains(#[trigger] waiting[i]) by {}
        assert forall|i: int| 0 <= i < e.passengers.len() implies e2.passengers.contains(
            #[trigger] e.passengers[i],
        ) by {}
    }
}

/// One tick keeps an elevator well formed, with the same capacity in the
/// same building. Whoever is aboard or still waits afterwards was aboard or
/// waiting before, those who wait are unchanged, and no two share an id.
pub proof fn lemma_stepped(e: ElevatorView, waiting: Seq<Passenger>)
    requires
        e.wf(),
        all_valid(waiting, e.floor_count),
        distinct_ids(e.passengers + waiting),
    ensures
        ({
            let (e2, left) = e.stepped(waiting);
            &&& e2.wf()
            &&& e2.capacity == e.capacity
            &&& e2.floor_count == e.floor_count
            &&& all_valid(left, e.floor_count)
            &&& distinct_ids(e2.passengers + left)
            &&& drawn_from(e2.passengers + left, e.passengers + waiting)
            &&& forall|i: int| 0 <= i < left.len() ==> waiting.contains(#[trigger] left[i])
        }),
{
    let (e2, left) = e.stepped(waiting);
    let before = e.passengers + waiting;
    assert forall|i: int| 0 <= i < waiting.len() implies waiting.contains(#[trigger] waiting[i]) by {}
    assert(drawn_from(before, before)) by {
        assert forall|i: int| 0 <= i < before.len() implies id_in(
            (#[trigger] before[i]).id,
            before,
        ) by {}
    }
    match e.cabin {
        CabinState::Standing(floor) => {
            if e.door == DoorState::Closed && e.destinations.len() > 0 {
                let next = e.destinations[0];
                if !e.warranted(waiting, next) {
                    let rest = e.destinations.drop_first();
                    assert forall|i: int| 0 <= i < e.passengers.len() implies rest.contains(
                        (#[trigger] e.passengers[i]).destination,
                    ) by {
                        let d = e.passengers[i].destination;
                        assert(e.destinations.contains(d));
                        let j = choose|j: int| 0 <= j < e.destinations.len() && e.destinations[j] == d;
                        assert(d != next);
                        assert(rest[j - 1] == d);
                    }
                    assert forall|i: int| 0 <= i < rest.len() implies 0 <= #[trigger] rest[i]
                        < e.floor_count by {
                        assert(rest[i] == e.destinations[i + 1]);
                    }
                    assert forall|i: int, j: int| 0 <= i < rest.len() && 0 <= j < rest.len() && i
                        != j implies rest[i] != rest[j] by {
                        assert(rest[i] == e.destinations[i + 1]);
                        assert(rest[j] == e.destinations[j + 1]);
                    }
                }
            }
        },
        CabinState::Moving(from, to) => {
            if ElevatorView::next_floor(from, to) == to && !e.warranted(waiting, to) {
                lemma_remove_value(e.destinations, to);
                assert forall|i: int| 0 <= i < e2.destinations.len() implies 0
                    <= #[trigger] e2.destinations[i] < e.floor_count by {
                    assert(e.destinations.contains(e2.destinations[i]));
                }
                assert forall|i: int| 0 <= i < e.passengers.len() implies e2.destinations.contains(
                    (#[trigger] e.passengers[i]).destination,
                ) by {
                    assert(e.destinations.contains(e.passengers[i].destination));
                }
            }
        },
        CabinState::Holding(floor) => match e.door {
            DoorState::Closed => {},
            DoorState::Opening => {
                lemma_exchanged(e, waiting);
            },
            DoorState::Open => {},
            DoorState::Closing => {
                lemma_remove_value(e.destinations, floor);
                assert forall|i: int| 0 <= i < e2.destinations.len() implies 0
                    <= #[trigger] e2.destinations[i] < e.floor_count by {
                    assert(e.destinations.contains(e2.destinations[i]));
                }
                assert forall|i: int| 0 <= i < e.passengers.len() implies e2.destinations.contains(
                    (#[trigger] e.passengers[i]).destination,
                ) by {
                    assert(e.destinations.contains(e.passengers[i].destination));
                }
            },
        },
    }
}

/// Sorting the queue keeps an elevator well formed.
pub proof fn lemma_sorted_wf(e: ElevatorView)
    requires
        e.wf(),
    ensures
        e.sorted().wf(),
{
    lemma_scan_sorted(e.destinations, e.floor());
    let s = e.sorted();
    assert forall|i: int| 0 <= i < s.destinations.len() implies 0 <= #[trigger] s.destinations[i]
        < s.floor_count by {
        assert(s.destinations.contains(s.destinations[i]));
        assert(e.destinations.contains(s.destinations[i]));
    }
    assert forall|i: int| 0 <= i < s.passengers.len() implies s.destinations.contains(
        (#[trigger] s.passengers[i]).destination,
    ) by {
        assert(e.destinations.contains(e.passengers[i].destination));
    }
}

/// Asking for a stop inside the building keeps an elevator well formed.
pub proof fn lemma_with_destination_wf(e: ElevatorView, stop: i32)
    requires
        e.wf(),
        0 <= stop < e.floor_count,
    ensures
        e.with_destination(stop).wf(),
{
    lemma_with_stop(e.destinations, e.floor(), stop);
    let s = e.with_destination(stop);
    assert forall|i: int| 0 <= i < s.destinations.len() implies 0 <= #[trigger] s.destinations[i]
        < s.floor_count by {
        assert(s.destinations.contains(s.destinations[i]));
        if s.destinations[i] != stop {
            assert(e.destinations.contains(s.destinations[i]));
        }
    }
    assert forall|i: int| 0 <= i < s.passengers.len() implies s.destinations.contains(
        (#[trigger] s.passengers[i]).destination,
    ) by {
        assert(e.destinations.contains(e.passengers[i].destination));
    }
}

} // verus!
