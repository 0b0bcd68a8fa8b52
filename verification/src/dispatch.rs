//! The choice of an elevator for a passenger who waits.
//!
//! Every elevator with room is given a score, and the elevator with the lowest
//! score is asked to stop at the passenger's floor. Of several elevators with
//! the lowest score the first in the bank is taken.
use vstd::prelude::*;
use crate::elevator::{Elevator, ElevatorView};
use crate::passenger::Passenger;
use crate::state::{CabinState, Direction, PassengerState};

verus! {

/// The views of the elevators of a bank, in order.
pub open spec fn views_of(elevators: Seq<Elevator>) -> Seq<ElevatorView> {
    elevators.map_values(|e: Elevator| e@)
}

/// The distance between two floors.
pub open spec fn distance(a: i32, b: i32) -> int {
    if a <= b {
        b - a
    } else {
        a - b
    }
}

/// A cabin moving from `from` to `to` passes `floor` in direction `direction`:
/// it travels in that direction, and `floor` lies between `from` and `to`,
/// ends included.
pub open spec fn on_the_way(from: i32, to: i32, floor: i32, direction: Direction) -> bool {
    match direction {
        Direction::Up => from < to && from <= floor <= to,
        Direction::Down => to <= from && to <= floor <= from,
    }
}

/// The score of an elevator for a passenger who waits on `floor` to travel in
/// `direction`; lower is better, and `None` rules the elevator out.
///
/// A full elevator is ruled out. A cabin that stands or holds scores its
/// distance to the floor. A moving cabin scores zero if it passes the floor in
/// the passenger's direction, and is ruled out otherwise.
pub open spec fn score(e: ElevatorView, floor: i32, direction: Direction) -> Option<int> {
    if e.is_full() {
        None
    } else {
        match e.cabin {
            CabinState::Standing(at) => Some(distance(at, floor)),
            CabinState::Holding(at) => Some(distance(at, floor)),
            CabinState::Moving(from, to) => if on_the_way(from, to, floor, direction) {
                Some(0)
            } else {
                None
            },
        }
    }
}

/// Elevator `i` is the choice among the first `k` elevators: it has a score,
/// no elevator before it scores as low, and none after it scores lower.
pub open spec fn is_best_among(
    elevators: Seq<ElevatorView>,
    floor: i32,
    direction: Direction,
    k: int,
    i: int,
) -> bool {
    &&& 0 <= i < k <= elevators.len()
    &&& score(elevators[i], floor, direction) is Some
    &&& forall|j: int|
        0 <= j < k ==> match #[trigger] score(elevators[j], floor, direction) {
            Some(s) => {
                let best = score(elevators[i], floor, direction).unwrap();
                best <= s && (j < i ==> best < s)
            },
            None => true,
        }
}

/// The elevator chosen for a passenger who waits on `floor` to travel in
/// `direction`, if any elevator has a score.
pub open spec fn best_elevator(elevators: Seq<ElevatorView>, floor: i32, direction: Direction) -> Option<
    int,
> {
    if exists|i: int| is_best_among(elevators, floor, direction, elevators.len() as int, i) {
        Some(choose|i: int| is_best_among(elevators, floor, direction, elevators.len() as int, i))
    } else {
        None
    }
}

/// The bank after the passenger `p` has been dispatched: if `p` waits and an
/// elevator is chosen for it, that elevator is asked to stop at the floor
/// where `p` waits; otherwise nothing changes.
pub open spec fn dispatched_one(elevators: Seq<ElevatorView>, p: Passenger) -> Seq<ElevatorView> {
    match p.state {
        PassengerState::Idle(floor) => match best_elevator(elevators, floor, p.direction) {
            Some(i) => elevators.update(i, elevators[i].with_destination(floor)),
            None => elevators,
        },
        _ => elevators,
    }
}

/// The bank after the first `k` of `waiting` have been dispatched in turn.
pub open spec fn dispatched(elevators: Seq<ElevatorView>, waiting: Seq<Passenger>, k: nat) -> Seq<
    ElevatorView,
>
    decreases k,
{
    if k == 0 {
        elevators
    } else {
        dispatched_one(dispatched(elevators, waiting, (k - 1) as nat), waiting[k - 1])
    }
}

/// At most one elevator is the choice.
pub proof fn lemma_best_unique(
    elevators: Seq<ElevatorView>,
    floor: i32,
    direction: Direction,
    k: int,
    i: int,
    j: int,
)
    requires
        is_best_among(elevators, floor, direction, k, i),
        is_best_among(elevators, floor, direction, k, j),
    ensures
        i == j,
{
    let si = score(elevators[i], floor, direction);
    let sj = score(elevators[j], floor, direction);
    assert(si is Some && sj is Some);
}

/// The choice exists exactly if some elevator has a score, and then it is the
/// first elevator with the lowest score.
pub proof fn lemma_best_elevator(elevators: Seq<ElevatorView>, floor: i32, direction: Direction)
    ensures
        match best_elevator(elevators, floor, direction) {
            Some(i) => is_best_among(elevators, floor, direction, elevators.len() as int, i),
            None => forall|j: int|
                0 <= j < elevators.len() ==> #[trigger] score(elevators[j], floor, direction)
                    is None,
        },
{
    let n = elevators.len() as int;
    if best_elevator(elevators, floor, direction) is None {
        assert forall|j: int| 0 <= j < n implies #[trigger] score(elevators[j], floor, direction)
            is None by {
            if score(elevators[j], floor, direction) is Some {
                lemma_some_best(elevators, floor, direction, n);
            }
        }
    }
}

/// Among the first `k` elevators there is a choice as soon as one of them has
/// a score.
proof fn lemma_some_best(elevators: Seq<ElevatorView>, floor: i32, direction: Direction, k: int)
    requires
        0 <= k <= elevators.len(),
        exists|j: int| 0 <= j < k && score(elevators[j], floor, direction) is Some,
    ensures
        exists|i: int| is_best_among(elevators, floor, direction, k, i),
    decreases k,
{
    let m = k - 1;
    let last = score(elevators[m], floor, direction);
    if exists|j: int| 0 <= j < m && score(elevators[j], floor, direction) is Some {
        lemma_some_best(elevators, floor, direction, m);
        let b = choose|i: int| is_best_among(elevators, floor, direction, m, i);
        let sb = score(elevators[b], floor, direction).unwrap();
        if last is Some && last.unwrap() < sb {
            assert(is_best_among(elevators, floor, direction, k, m));
        } else {
            assert(is_best_among(elevators, floor, direction, k, b));
        }
    } else {
        assert(is_best_among(elevators, floor, direction, k, m));
    }
}

/// The score of an elevator for a passenger who waits on `floor` to travel in
/// `direction`.
pub fn score_of(e: &Elevator, floor: i32, direction: Direction) -> (s: Option<i64>)
    ensures
        match s {
            Some(v) => score(e@, floor, direction) == Some(v as int),
            None => score(e@, floor, direction) is None,
        },
{
    if e.is_full() {
        return None;
    }
    match e.cabin_state() {
        CabinState::Standing(at) => Some(gap(at, floor)),
        CabinState::Holding(at) => Some(gap(at, floor)),
        CabinState::Moving(from, to) => {
            let passes = match direction {
                Direction::Up => from < to && from <= floor && floor <= to,
                Direction::Down => to <= from && to <= floor && floor <= from,
            };
            if passes {
                Some(0)
            } else {
                None
            }
        },
    }
}

/// The distance between two floors.
pub fn gap(a: i32, b: i32) -> (d: i64)
    ensures
        d == distance(a, b),
{
    if a <= b {
        b as i64 - a as i64
    } else {
        a as i64 - b as i64
    }
}

/// The elevator chosen for a passenger who waits on `floor` to travel in
/// `direction`: the first with the lowest score, or none if every elevator is
/// ruled out.
pub fn choose_elevator(elevators: &Vec<Elevator>, floor: i32, direction: Direction) -> (best: Option<
    usize,
>)
    ensures
        match best {
            Some(i) => best_elevator(views_of(elevators@), floor, direction) == Some(i as int),
            None => best_elevator(views_of(elevators@), floor, direction) is None,
        },
{
    let ghost bank = views_of(elevators@);
    let mut best: Option<(usize, i64)> = None;
    let mut k: usize = 0;
    while k < elevators.len()
        invariant
            k <= elevators@.len(),
            bank == views_of(elevators@),
            match best {
                Some((i, s)) => is_best_among(bank, floor, direction, k as int, i as int) && score(
                    bank[i as int],
                    floor,
                    direction,
                ) == Some(s as int),
                None => forall|j: int|
                    0 <= j < k ==> #[trigger] score(bank[j], floor, direction) is None,
            },
        decreases elevators@.len() - k,
    {
        let s = score_of(&elevators[k], floor, direction);
        match s {
            Some(v) => {
                match best {
                    Some((_, low)) => {
                        if v < low {
                            best = Some((k, v));
                        }
                    },
                    None => {
                        best = Some((k, v));
                    },
                }
            },
            None => {},
        }
        k += 1;
    }
    proof {
        lemma_best_elevator(bank, floor, direction);
        match best {
            Some((i, _)) => {
                lemma_best_unique(
                    bank,
                    floor,
                    direction,
                    bank.len() as int,
                    i as int,
                    best_elevator(bank, floor, direction).unwrap(),
                );
            },
            None => {
                if best_elevator(bank, floor, direction) is Some {
                    let i = best_elevator(bank, floor, direction).unwrap();
                    assert(score(bank[i], floor, direction) is None);
                }
            },
        }
    }
    match best {
        Some((i, _)) => Some(i),
        None => None,
    }
}

} // verus!
