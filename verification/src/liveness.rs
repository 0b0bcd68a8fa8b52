//! Why everyone arrives: once no new passenger joins, the simulation empties
//! within a number of ticks that can be told in advance.
//!
//! The argument counts what is left to do. The boardings and exits still to
//! come never grow in number. While their number stands still, every elevator
//! has a slack, made of the calls it may still be given and of the ticks it
//! needs to work off its queue; no slack grows, and in every tick some slack
//! shrinks.
use vstd::prelude::*;
use crate::control::{
    all_idle, lemma_advanced, lemma_dispatched, lemma_distinct_concat, lemma_ticked,
    ControlSystemView,
};
use crate::dispatch::{best_elevator, dispatched, distance, lemma_best_elevator, score};
use crate::elevator::{
    lemma_remove_value, lemma_stepped, lemma_with_destination_wf, stays_aboard, ElevatorView,
    MAX_DWELL_TICKS,
};
use crate::passenger::{all_valid, anyone_waits_at, distinct_ids, Passenger};
use crate::scan::lemma_with_stop;
use crate::state::{CabinState, DoorState, PassengerState};

verus! {

/// `a * w + b`: a count of `a` with weight `w`, and `b` on top.
pub open spec fn weighted(a: int, w: int, b: int) -> int {
    a * w + b
}

/// With `b` kept below the weight, the count decides: a smaller count gives a
/// smaller sum, and with equal counts the rest decides.
pub proof fn lemma_weighted(a: int, a2: int, w: int, b: int, b2: int)
    requires
        0 <= b,
        0 <= b2 < w,
    ensures
        a2 < a ==> weighted(a2, w, b2) < weighted(a, w, b),
        a2 == a && b2 <= b ==> weighted(a2, w, b2) <= weighted(a, w, b),
        a2 == a && b2 < b ==> weighted(a2, w, b2) < weighted(a, w, b),
{
    if a2 < a {
        assert(a2 * w + b2 < a * w + b) by (nonlinear_arith)
            requires
                a2 < a,
                0 <= b,
                0 <= b2 < w,
        ;
    }
}

/// A count of at most `a_max` with a rest of at most `b_max` weighs at most
/// `a_max * w + b_max`, and a count that is not negative weighs no less than
/// its rest.
pub proof fn lemma_weighted_bounds(a: int, a_max: int, w: int, b: int, b_max: int)
    requires
        0 <= a <= a_max,
        0 <= w,
        0 <= b <= b_max,
    ensures
        0 <= weighted(a, w, b) <= weighted(a_max, w, b_max),
{
    assert(0 <= a * w <= a_max * w) by (nonlinear_arith)
        requires
            0 <= a <= a_max,
            0 <= w,
    ;
}

/// The sum of the numbers of a sequence.
pub open spec fn total(v: Seq<int>) -> int
    decreases v.len(),
{
    if v.len() == 0 {
        0
    } else {
        total(v.drop_last()) + v.last()
    }
}

/// Replacing one number changes the sum by the difference.
pub proof fn lemma_total_update(v: Seq<int>, i: int, x: int)
    requires
        0 <= i < v.len(),
    ensures
        total(v.update(i, x)) == total(v) - v[i] + x,
    decreases v.len(),
{
    let w = v.update(i, x);
    if i == v.len() - 1 {
        assert(w.drop_last() =~= v.drop_last());
    } else {
        assert(w.drop_last() =~= v.drop_last().update(i, x));
        lemma_total_update(v.drop_last(), i, x);
    }
}

/// A sequence that is nowhere greater than another has no greater sum, and a
/// smaller one if it is smaller somewhere.
pub proof fn lemma_total_compare(v: Seq<int>, w: Seq<int>)
    requires
        v.len() == w.len(),
        forall|i: int| 0 <= i < v.len() ==> #[trigger] v[i] <= w[i],
    ensures
        total(v) <= total(w),
        (exists|i: int| 0 <= i < v.len() && v[i] < w[i]) ==> total(v) < total(w),
    decreases v.len(),
{
    if v.len() > 0 {
        lemma_total_compare(v.drop_last(), w.drop_last());
        if exists|i: int| 0 <= i < v.len() && v[i] < w[i] {
            let i = choose|i: int| 0 <= i < v.len() && v[i] < w[i];
            if i < v.len() - 1 {
                assert(v.drop_last()[i] < w.drop_last()[i]);
            }
        }
    }
}

/// Numbers between zero and `bound` sum to something between zero and their
/// count times `bound`.
pub proof fn lemma_total_bounds(v: Seq<int>, bound: int)
    requires
        forall|i: int| 0 <= i < v.len() ==> 0 <= #[trigger] v[i] <= bound,
    ensures
        0 <= total(v) <= v.len() * bound,
    decreases v.len(),
{
    if v.len() > 0 {
        lemma_total_bounds(v.drop_last(), bound);
        assert((v.len() - 1) * bound + bound == v.len() * bound) by (nonlinear_arith);
    } else {
        assert(0 * bound == 0);
    }
}

/// A selection that is as long as the sequence is the sequence.
pub proof fn lemma_selection_of_all(s: Seq<Passenger>, pred: spec_fn(Passenger) -> bool)
    requires
        s.filter(pred).len() >= s.len(),
    ensures
        s.filter(pred) == s,
    decreases s.len(),
{
    reveal(Seq::filter);
    if s.len() > 0 {
        let t = s.drop_last();
        t.lemma_filter_len(pred);
        lemma_selection_of_all(t, pred);
        assert(t.push(s.last()) =~= s);
    }
}

/// What boarding does to the numbers: everyone looked at is aboard or still
/// waits afterwards. If all of them still wait, nothing has changed, and if
/// the cabin had room, none of them waited on this floor.
pub proof fn lemma_loaded_count(e: ElevatorView, waiting: Seq<Passenger>, floor: i32, k: nat)
    requires
        k <= waiting.len(),
    ensures
        ({
            let (e2, left) = e.loaded(waiting, floor, k);
            &&& e2.passengers.len() + left.len() == e.passengers.len() + k
            &&& left.len() <= k
            &&& left.len() == k ==> {
                &&& e2 == e
                &&& left == waiting.take(k as int)
                &&& !e.is_full() ==> forall|i: int|
                    0 <= i < k ==> !(#[trigger] waiting[i]).waits_at(floor)
            }
        }),
    decreases k,
{
    if k > 0 {
        lemma_loaded_count(e, waiting, floor, (k - 1) as nat);
        let (e1, left1) = e.loaded(waiting, floor, (k - 1) as nat);
        let (e2, left) = e.loaded(waiting, floor, k);
        if left.len() == k {
            assert(left =~= waiting.take(k as int));
        }
    } else {
        assert(e.loaded(waiting, floor, 0).1 =~= waiting.take(0));
    }
}

/// What an exchange does to the numbers. Count two for everyone who waits and
/// one for everyone aboard: the exchange never raises that count. If it
/// leaves the count as it is, nobody left and nobody boarded, and if the cabin
/// had room, nobody waited on this floor.
pub proof fn lemma_exchanged_count(e: ElevatorView, waiting: Seq<Passenger>, floor: i32)
    ensures
        ({
            let (e2, left) = e.exchanged(waiting, floor);
            &&& 2 * left.len() + e2.passengers.len() <= 2 * waiting.len() + e.passengers.len()
            &&& 2 * left.len() + e2.passengers.len() == 2 * waiting.len() + e.passengers.len() ==> {
                &&& e2 == e
                &&& left == waiting
                &&& !e.is_full() ==> !anyone_waits_at(waiting, floor)
            }
        }),
{
    let u = e.unloaded(floor);
    let (e2, left) = e.exchanged(waiting, floor);
    e.passengers.lemma_filter_len(stays_aboard(floor));
    lemma_loaded_count(u, waiting, floor, waiting.len());
    if 2 * left.len() + e2.passengers.len() == 2 * waiting.len() + e.passengers.len() {
        lemma_selection_of_all(e.passengers, stays_aboard(floor));
        assert(u == e);
        assert(waiting.take(waiting.len() as int) =~= waiting);
    }
}

/// The ticks that a door takes at most from closed to closed again.
pub open spec fn door_cycle() -> int {
    MAX_DWELL_TICKS as int + 3
}

/// The ticks that an elevator spends on one stop at most: the way there, one
/// floor in two ticks, and a door cycle.
pub open spec fn stop_cost(floor_count: int) -> int {
    2 * floor_count + door_cycle() + 2
}

/// The stops that an elevator has before it: those of its queue, and the floor
/// it moves to or holds at, counted once.
pub open spec fn pending_stops(e: ElevatorView) -> int {
    e.destinations.len() + match e.cabin {
        CabinState::Standing(_) => 0int,
        CabinState::Moving(_, to) => if e.destinations.contains(to) {
            0int
        } else {
            1int
        },
        CabinState::Holding(floor) => if e.destinations.contains(floor) {
            0int
        } else {
            1int
        },
    }
}

/// The ticks that an elevator needs at most for what it is doing now: to reach
/// the first stop of its queue and serve it, or to finish the door cycle it is
/// in.
pub open spec fn haste(e: ElevatorView) -> int {
    match e.cabin {
        CabinState::Standing(floor) => if e.destinations.len() == 0 {
            0
        } else {
            2 * distance(floor, e.destinations[0]) + door_cycle() + 1
        },
        CabinState::Moving(from, to) => (if e.destinations.len() == 0 {
            0
        } else {
            2 * distance(ElevatorView::next_floor(from, to), e.destinations[0])
        }) + door_cycle() + 2,
        CabinState::Holding(_) => match e.door {
            DoorState::Closed => door_cycle(),
            DoorState::Opening => door_cycle() - 1,
            DoorState::Open => door_cycle() - 2 - e.door_timer,
            DoorState::Closing => 1,
        },
    }
}

/// The ticks that an elevator needs at most to work off its queue, if nobody
/// boards or leaves and no stop is added.
pub open spec fn backlog(e: ElevatorView) -> int {
    weighted(pending_stops(e), stop_cost(e.floor_count), haste(e))
}

/// The greatest backlog in a building of `floor_count` floors.
pub open spec fn most_backlog(floor_count: int) -> int {
    weighted(floor_count + 1, stop_cost(floor_count), stop_cost(floor_count) - 1)
}

/// The elevator has nothing to do: it stands, and its queue is empty.
pub open spec fn is_idle(e: ElevatorView) -> bool {
    e.cabin is Standing && e.destinations.len() == 0
}

/// The elevator may still be called to `floor`: it has room, someone waits
/// there, and the floor is not queued, or is being served with the door
/// already open.
pub open spec fn call_open(e: ElevatorView, waiting: Seq<Passenger>, floor: i32) -> bool {
    &&& !e.is_full()
    &&& anyone_waits_at(waiting, floor)
    &&& (!e.destinations.contains(floor) || (e.cabin == CabinState::Holding(floor) && (e.door
        == DoorState::Open || e.door == DoorState::Closing)))
}

/// The number of floors below `n` that the elevator may still be called to.
pub open spec fn open_calls(e: ElevatorView, waiting: Seq<Passenger>, n: int) -> int
    decreases n,
{
    if n <= 0 {
        0
    } else {
        open_calls(e, waiting, n - 1) + if call_open(e, waiting, (n - 1) as i32) {
            1int
        } else {
            0int
        }
    }
}

/// The slack of an elevator: the calls it may still be given, each weighing
/// more than any backlog, and its backlog.
pub open spec fn slack(e: ElevatorView, waiting: Seq<Passenger>) -> int {
    weighted(open_calls(e, waiting, e.floor_count), most_backlog(e.floor_count) + 1, backlog(e))
}

/// The greatest slack in a building of `floor_count` floors.
pub open spec fn most_slack(floor_count: int) -> int {
    weighted(floor_count, most_backlog(floor_count) + 1, most_backlog(floor_count))
}

/// A queue without duplicates of floors below `n` has at most `n` stops.
pub proof fn lemma_queue_length(queue: Seq<i32>, n: int)
    requires
        0 <= n <= i32::MAX,
        queue.no_duplicates(),
        forall|i: int| 0 <= i < queue.len() ==> 0 <= #[trigger] queue[i] < n,
    ensures
        queue.len() <= n,
    decreases n,
{
    if n == 0 {
        if queue.len() > 0 {
            assert(0 <= queue[0] < n);
        }
    } else {
        let top = (n - 1) as i32;
        let rest = queue.remove_value(top);
        lemma_remove_value(queue, top);
        lemma_remove_value_length(queue, top);
        assert forall|i: int| 0 <= i < rest.len() implies 0 <= #[trigger] rest[i] < n - 1 by {
            assert(queue.contains(rest[i]));
            assert(rest.contains(rest[i]));
        }
        lemma_queue_length(rest, n - 1);
    }
}

/// Taking a stop out of a queue shortens the queue by one if the stop was
/// queued, and leaves it as it is otherwise.
pub proof fn lemma_remove_value_length(queue: Seq<i32>, stop: i32)
    ensures
        queue.contains(stop) ==> queue.remove_value(stop).len() == queue.len() - 1,
        !queue.contains(stop) ==> queue.remove_value(stop) == queue,
{
    queue.index_of_first_ensures(stop);
}

/// The backlog of a well-formed elevator lies between zero and the greatest
/// backlog of its building.
pub proof fn lemma_backlog_bounds(e: ElevatorView)
    requires
        e.wf(),
    ensures
        0 <= haste(e) < stop_cost(e.floor_count),
        0 <= pending_stops(e) <= e.floor_count + 1,
        0 <= backlog(e) <= most_backlog(e.floor_count),
{
    lemma_queue_length(e.destinations, e.floor_count);
    if e.destinations.len() > 0 {
        assert(0 <= e.destinations[0] < e.floor_count);
    }
    lemma_weighted_bounds(
        pending_stops(e),
        e.floor_count + 1,
        stop_cost(e.floor_count),
        haste(e),
        stop_cost(e.floor_count) - 1,
    );
}

/// Below `n` there are between zero and `n` floors that an elevator may be
/// called to.
pub proof fn lemma_open_calls_bounds(e: ElevatorView, waiting: Seq<Passenger>, n: int)
    requires
        0 <= n,
    ensures
        0 <= open_calls(e, waiting, n) <= n,
    decreases n,
{
    if n > 0 {
        lemma_open_calls_bounds(e, waiting, n - 1);
    }
}

/// If every floor below `n` that one elevator may be called to is a floor that
/// another may be called to, the first has no more such floors than the
/// second, and fewer if floor `g` is one for the second only.
pub proof fn lemma_open_calls_compare(
    e2: ElevatorView,
    w2: Seq<Passenger>,
    e: ElevatorView,
    w: Seq<Passenger>,
    n: int,
    g: int,
)
    requires
        0 <= n <= i32::MAX,
        forall|f: i32| 0 <= f < n && #[trigger] call_open(e2, w2, f) ==> call_open(e, w, f),
    ensures
        open_calls(e2, w2, n) <= open_calls(e, w, n),
        0 <= g < n && call_open(e, w, g as i32) && !call_open(e2, w2, g as i32) ==> open_calls(
            e2,
            w2,
            n,
        ) < open_calls(e, w, n),
    decreases n,
{
    if n > 0 {
        lemma_open_calls_compare(e2, w2, e, w, n - 1, g);
        let top = (n - 1) as i32;
        if call_open(e2, w2, top) {
            assert(call_open(e, w, top));
        }
    }
}

/// The slack of a well-formed elevator lies between zero and the greatest
/// slack of its building.
pub proof fn lemma_slack_bounds(e: ElevatorView, waiting: Seq<Passenger>)
    requires
        e.wf(),
    ensures
        0 <= slack(e, waiting) <= most_slack(e.floor_count),
{
    lemma_backlog_bounds(e);
    lemma_open_calls_bounds(e, waiting, e.floor_count);
    lemma_weighted_bounds(
        open_calls(e, waiting, e.floor_count),
        e.floor_count,
        most_backlog(e.floor_count) + 1,
        backlog(e),
        most_backlog(e.floor_count),
    );
}

/// A tick in which nobody boards and nobody leaves brings a busy elevator
/// closer to the end of its queue.
///
/// Count two for everyone who waits and one for everyone aboard. A tick of an
/// elevator never raises that count. If it leaves the count as it is, then
/// those who wait and those aboard are the same as before, the slack of the
/// elevator has not grown, and it has shrunk unless the elevator was idle, in
/// which case nothing has changed at all.
pub proof fn lemma_stepped_slack(e: ElevatorView, waiting: Seq<Passenger>)
    requires
        e.wf(),
        all_valid(waiting, e.floor_count),
        distinct_ids(e.passengers + waiting),
    ensures
        ({
            let (e2, left) = e.stepped(waiting);
            &&& 2 * left.len() + e2.passengers.len() <= 2 * waiting.len() + e.passengers.len()
            &&& 2 * left.len() + e2.passengers.len() == 2 * waiting.len() + e.passengers.len() ==> {
                &&& left == waiting
                &&& e2.passengers == e.passengers
                &&& slack(e2, waiting) <= slack(e, waiting)
                &&& !is_idle(e) ==> slack(e2, waiting) < slack(e, waiting)
                &&& is_idle(e) ==> e2 == e
            }
        }),
{
    let (e2, left) = e.stepped(waiting);
    let n = e.floor_count;
    lemma_stepped(e, waiting);
    if e.cabin is Holding && e.door == DoorState::Opening {
        lemma_exchanged_count(e, waiting, e.floor());
    }
    if 2 * left.len() + e2.passengers.len() == 2 * waiting.len() + e.passengers.len() {
        assert(left == waiting);
        assert(e2.passengers == e.passengers);
        if is_idle(e) {
            assert(e2 == e);
        } else {
            lemma_backlog_bounds(e);
            lemma_backlog_bounds(e2);
            // The elevator has fewer stops before it, or as many and less to
            // do for the first.
            assert(pending_stops(e2) < pending_stops(e) || (pending_stops(e2) == pending_stops(e)
                && haste(e2) < haste(e))) by {
                lemma_stepped_backlog(e, waiting);
            }
            lemma_weighted(
                pending_stops(e),
                pending_stops(e2),
                stop_cost(n),
                haste(e),
                haste(e2),
            );
            assert(backlog(e2) < backlog(e));
            // It may be called to no floor that it could not be called to
            // before.
            assert forall|f: i32| 0 <= f < n && #[trigger] call_open(e2, waiting, f) implies call_open(
                e,
                waiting,
                f,
            ) by {
                lemma_stepped_calls(e, waiting, f);
            }
            lemma_open_calls_compare(e2, waiting, e, waiting, n, 0);
            lemma_open_calls_bounds(e2, waiting, n);
            lemma_weighted(
                open_calls(e, waiting, n),
                open_calls(e2, waiting, n),
                most_backlog(n) + 1,
                backlog(e),
                backlog(e2),
            );
        }
    }
}

/// In a tick in which nobody boards and nobody leaves, a busy elevator gets
/// fewer stops before it, or keeps as many and has less to do for the first.
proof fn lemma_stepped_backlog(e: ElevatorView, waiting: Seq<Passenger>)
    requires
        e.wf(),
        !is_idle(e),
        e.stepped(waiting).0.passengers == e.passengers,
        e.stepped(waiting).1 == waiting,
        e.cabin is Holding && e.door == DoorState::Opening ==> e.exchanged(waiting, e.floor()).0 == e,
    ensures
        pending_stops(e.stepped(waiting).0) < pending_stops(e) || (pending_stops(
            e.stepped(waiting).0,
        ) == pending_stops(e) && haste(e.stepped(waiting).0) < haste(e)),
{
    let e2 = e.stepped(waiting).0;
    let q = e.destinations;
    match e.cabin {
        CabinState::Standing(floor) => {
            let next = q[0];
            assert(0 <= next < e.floor_count);
            if e.warranted(waiting, next) && next != floor {
                assert(e2.destinations.contains(next));
            }
        },
        CabinState::Moving(from, to) => {
            let reached = ElevatorView::next_floor(from, to);
            if reached == to && !e.warranted(waiting, to) {
                lemma_remove_value_length(q, to);
            }
        },
        CabinState::Holding(floor) => {
            if e.door == DoorState::Closing {
                lemma_remove_value_length(q, floor);
            }
        },
    }
}

/// In a tick in which nobody boards and nobody leaves, an elevator can
/// afterwards be called to `floor` only if it could be called there before.
proof fn lemma_stepped_calls(e: ElevatorView, waiting: Seq<Passenger>, floor: i32)
    requires
        e.wf(),
        e.stepped(waiting).0.passengers == e.passengers,
        e.stepped(waiting).1 == waiting,
        e.cabin is Holding && e.door == DoorState::Opening ==> {
            &&& e.exchanged(waiting, e.floor()).0 == e
            &&& !e.is_full() ==> !anyone_waits_at(waiting, e.floor())
        },
        call_open(e.stepped(waiting).0, waiting, floor),
    ensures
        call_open(e, waiting, floor),
{
    let e2 = e.stepped(waiting).0;
    let q = e.destinations;
    if q.contains(floor) && !e2.destinations.contains(floor) {
        let j = choose|j: int| 0 <= j < q.len() && q[j] == floor;
        match e.cabin {
            CabinState::Standing(at) => {
                if j > 0 {
                    assert(q.drop_first()[j - 1] == floor);
                }
            },
            CabinState::Moving(from, to) => {
                lemma_remove_value(q, to);
            },
            CabinState::Holding(at) => {
                lemma_remove_value(q, at);
            },
        }
    }
}

/// A call answered takes nothing from an elevator's slack, and gives it less
/// slack if the elevator stands and the floor was not queued.
pub proof fn lemma_call_slack(e: ElevatorView, waiting: Seq<Passenger>, floor: i32)
    requires
        e.wf(),
        0 <= floor < e.floor_count,
        !e.is_full(),
        anyone_waits_at(waiting, floor),
    ensures
        slack(e.with_destination(floor), waiting) <= slack(e, waiting),
        e.cabin is Standing && !e.destinations.contains(floor) ==> slack(
            e.with_destination(floor),
            waiting,
        ) < slack(e, waiting),
{
    let e2 = e.with_destination(floor);
    let n = e.floor_count;
    if !e.destinations.contains(floor) {
        lemma_with_stop(e.destinations, e.floor(), floor);
        lemma_with_destination_wf(e, floor);
        lemma_backlog_bounds(e);
        lemma_backlog_bounds(e2);
        lemma_open_calls_bounds(e2, waiting, n);
        assert(call_open(e, waiting, floor));
        assert forall|f: i32| 0 <= f < n && #[trigger] call_open(e2, waiting, f) implies call_open(
            e,
            waiting,
            f,
        ) by {
            if f != floor {
                assert(e2.destinations.contains(f) <==> e.destinations.contains(f));
            }
        }
        lemma_open_calls_compare(e2, waiting, e, waiting, n, floor as int);
        assert(e2.destinations.contains(floor));
        if call_open(e2, waiting, floor) {
            // The floor is being served with the door open: it counted as a
            // stop before, and it still does.
            assert(pending_stops(e2) == pending_stops(e));
            assert(haste(e2) == haste(e));
        }
        lemma_weighted(
            open_calls(e, waiting, n),
            open_calls(e2, waiting, n),
            most_backlog(n) + 1,
            backlog(e),
            backlog(e2),
        );
    }
}

/// Dispatching one more passenger gives no elevator more slack.
pub proof fn lemma_dispatched_slack(
    elevators: Seq<ElevatorView>,
    waiting: Seq<Passenger>,
    k: nat,
    floor_count: int,
)
    requires
        1 <= k <= waiting.len(),
        all_valid(waiting, floor_count),
        forall|i: int|
            0 <= i < elevators.len() ==> (#[trigger] elevators[i]).wf() && elevators[i].floor_count
                == floor_count,
    ensures
        forall|j: int|
            0 <= j < elevators.len() ==> slack(#[trigger] dispatched(elevators, waiting, k)[j], waiting)
                <= slack(dispatched(elevators, waiting, (k - 1) as nat)[j], waiting),
{
    let before = dispatched(elevators, waiting, (k - 1) as nat);
    let after = dispatched(elevators, waiting, k);
    lemma_dispatched(elevators, waiting, (k - 1) as nat, floor_count);
    let p = waiting[k - 1];
    assert(p.wf() && p.within(floor_count));
    match p.state {
        PassengerState::Idle(floor) => {
            lemma_best_elevator(before, floor, p.direction);
            match best_elevator(before, floor, p.direction) {
                Some(b) => {
                    assert(p.waits_at(floor));
                    assert(before[b].wf());
                    assert(score(before[b], floor, p.direction) is Some);
                    lemma_call_slack(before[b], waiting, floor);
                },
                None => {},
            }
        },
        _ => {},
    }
}

/// Dispatching gives no elevator more slack. If every elevator is idle and
/// someone waits, it gives some elevator less.
pub proof fn lemma_dispatched_slacks(
    elevators: Seq<ElevatorView>,
    waiting: Seq<Passenger>,
    k: nat,
    floor_count: int,
)
    requires
        k <= waiting.len(),
        all_valid(waiting, floor_count),
        all_idle(waiting),
        forall|i: int|
            0 <= i < elevators.len() ==> (#[trigger] elevators[i]).wf() && elevators[i].floor_count
                == floor_count,
    ensures
        forall|j: int|
            0 <= j < elevators.len() ==> slack(#[trigger] dispatched(elevators, waiting, k)[j], waiting)
                <= slack(elevators[j], waiting),
        k >= 1 && elevators.len() >= 1 && (forall|i: int|
            0 <= i < elevators.len() ==> is_idle(#[trigger] elevators[i])) ==> exists|j: int|
            0 <= j < elevators.len() && slack(#[trigger] dispatched(elevators, waiting, k)[j], waiting)
                < slack(elevators[j], waiting),
    decreases k,
{
    if k >= 1 {
        let before = dispatched(elevators, waiting, (k - 1) as nat);
        let after = dispatched(elevators, waiting, k);
        lemma_dispatched_slacks(elevators, waiting, (k - 1) as nat, floor_count);
        lemma_dispatched_slack(elevators, waiting, k, floor_count);
        lemma_dispatched(elevators, waiting, k, floor_count);
        assert forall|j: int| 0 <= j < elevators.len() implies slack(#[trigger] after[j], waiting)
            <= slack(elevators[j], waiting) by {
            assert(slack(after[j], waiting) <= slack(before[j], waiting));
        }
        if elevators.len() >= 1 && (forall|i: int|
            0 <= i < elevators.len() ==> is_idle(#[trigger] elevators[i])) {
            if k == 1 {
                let p = waiting[0];
                assert(p.wf() && p.within(floor_count) && p.state is Idle);
                let floor = p.origin;
                assert(p.state == PassengerState::Idle(floor));
                assert(p.waits_at(floor));
                assert(before == elevators);
                lemma_best_elevator(elevators, floor, p.direction);
                assert forall|i: int| 0 <= i < elevators.len() implies !(
                #[trigger] elevators[i]).is_full() by {
                    lemma_idle_is_empty(elevators[i]);
                }
                assert(is_idle(elevators[0]));
                assert(score(elevators[0], floor, p.direction) is Some);
                let b = best_elevator(elevators, floor, p.direction).unwrap();
                assert(is_idle(elevators[b]));
                lemma_call_slack(elevators[b], waiting, floor);
                assert(after[b] == elevators[b].with_destination(floor));
                assert(slack(after[b], waiting) < slack(elevators[b], waiting));
            } else {
                let j = choose|j: int|
                    0 <= j < elevators.len() && slack(#[trigger] before[j], waiting) < slack(
                        elevators[j],
                        waiting,
                    );
                assert(slack(after[j], waiting) <= slack(before[j], waiting));
            }
        }
    }
}

/// An idle elevator is empty.
pub proof fn lemma_idle_is_empty(e: ElevatorView)
    requires
        e.wf(),
        is_idle(e),
    ensures
        e.passengers.len() == 0,
        !e.is_full(),
{
    if e.passengers.len() > 0 {
        assert(e.destinations.contains(e.passengers[0].destination));
    }
}

/// The numbers of passengers aboard the elevators of a bank, in order.
pub open spec fn loads(elevators: Seq<ElevatorView>) -> Seq<int> {
    Seq::new(elevators.len(), |j: int| elevators[j].passengers.len() as int)
}

/// The slacks of the elevators of a bank, in order, given those who wait.
pub open spec fn slacks(elevators: Seq<ElevatorView>, waiting: Seq<Passenger>) -> Seq<int> {
    Seq::new(elevators.len(), |j: int| slack(elevators[j], waiting))
}

impl ControlSystemView {
    /// The number of passengers in the simulation: those who wait and those
    /// aboard any elevator.
    pub open spec fn population(self) -> int {
        self.passengers.len() + total(loads(self.elevators))
    }

    /// The boardings and exits still to come: two for everyone who waits, one
    /// for everyone aboard.
    pub open spec fn effort(self) -> int {
        2 * self.passengers.len() + total(loads(self.elevators))
    }

    /// The most that the slacks of all elevators can add up to, and one more.
    pub open spec fn stride(self) -> int {
        self.elevators.len() * most_slack(self.floor_count) + 1
    }

    /// A number of ticks after which the simulation is empty, if nobody
    /// arrives.
    pub open spec fn patience(self) -> int {
        weighted(self.effort(), self.stride(), total(slacks(self.elevators, self.passengers)))
    }

    /// The simulation after `n` ticks in which nobody arrives.
    pub open spec fn ticks(self, n: nat) -> ControlSystemView
        decreases n,
    {
        if n == 0 {
            self
        } else {
            self.ticked(None).ticks((n - 1) as nat)
        }
    }
}

/// Advancing elevators never raises the number of boardings and exits still
/// to come. If it leaves that number as it is, those who wait are the same as
/// before, no elevator has more slack, every busy elevator that has advanced
/// has less, and every idle elevator is as it was.
pub proof fn lemma_advanced_slack(s: ControlSystemView, k: nat)
    requires
        s.wf(),
        k <= s.elevators.len(),
    ensures
        s.advanced(k).effort() <= s.effort(),
        s.advanced(k).effort() == s.effort() ==> {
            &&& s.advanced(k).passengers == s.passengers
            &&& forall|j: int|
                0 <= j < s.elevators.len() ==> {
                    let e = #[trigger] s.elevators[j];
                    let e2 = s.advanced(k).elevators[j];
                    &&& slack(e2, s.passengers) <= slack(e, s.passengers)
                    &&& j < k && !is_idle(e) ==> slack(e2, s.passengers) < slack(e, s.passengers)
                    &&& is_idle(e) ==> e2 == e
                }
        },
    decreases k,
{
    if k > 0 {
        let m = (k - 1) as int;
        let t = s.advanced(m as nat);
        let u = s.advanced(k);
        lemma_advanced_slack(s, m as nat);
        lemma_advanced(s, m as nat);
        let e = t.elevators[m];
        assert(e == s.elevators[m]);
        let (e2, left) = e.stepped(t.passengers);
        lemma_distinct_concat(e.passengers, t.passengers);
        lemma_stepped_slack(e, t.passengers);
        assert(loads(u.elevators) =~= loads(t.elevators).update(m, e2.passengers.len() as int));
        lemma_total_update(loads(t.elevators), m, e2.passengers.len() as int);
        assert(u.effort() == t.effort() - (2 * t.passengers.len() + e.passengers.len()) + (2
            * left.len() + e2.passengers.len()));
        if u.effort() == s.effort() {
            assert forall|j: int| 0 <= j < s.elevators.len() implies {
                let e = #[trigger] s.elevators[j];
                let e2 = u.elevators[j];
                &&& slack(e2, s.passengers) <= slack(e, s.passengers)
                &&& j < k && !is_idle(e) ==> slack(e2, s.passengers) < slack(e, s.passengers)
                &&& is_idle(e) ==> e2 == e
            } by {
                if j != m {
                    assert(u.elevators[j] == t.elevators[j]);
                }
            }
        }
    }
}

/// Numbers that are not negative and sum to zero are all zero.
pub proof fn lemma_total_zero(v: Seq<int>)
    requires
        forall|i: int| 0 <= i < v.len() ==> 0 <= #[trigger] v[i],
        total(v) <= 0,
    ensures
        forall|i: int| 0 <= i < v.len() ==> #[trigger] v[i] == 0,
    decreases v.len(),
{
    if v.len() > 0 {
        let w = v.drop_last();
        assert forall|i: int| 0 <= i < w.len() implies 0 <= #[trigger] w[i] <= total(w) by {
            lemma_total_member(w, i);
        }
        if w.len() > 0 {
            lemma_total_member(w, 0);
        }
        lemma_total_zero(w);
        assert forall|i: int| 0 <= i < v.len() implies #[trigger] v[i] == 0 by {
            if i < w.len() {
                assert(w[i] == 0);
            }
        }
    }
}

/// No number of a sequence of numbers that are not negative exceeds their sum.
pub proof fn lemma_total_member(v: Seq<int>, i: int)
    requires
        forall|i: int| 0 <= i < v.len() ==> 0 <= #[trigger] v[i],
        0 <= i < v.len(),
    ensures
        0 <= v[i] <= total(v),
    decreases v.len(),
{
    let w = v.drop_last();
    assert(0 <= v[v.len() - 1]);
    assert forall|j: int| 0 <= j < w.len() implies 0 <= #[trigger] w[j] by {
        assert(w[j] == v[j]);
    }
    if w.len() > 0 {
        lemma_total_member(w, 0);
        if i < w.len() {
            lemma_total_member(w, i);
        }
    } else {
        assert(total(w) == 0);
    }
}

/// A tick without an arrival never raises the number of boardings and exits
/// still to come, and while some are still to come, it lowers the patience
/// that the simulation asks for.
pub proof fn lemma_tick_patience(s: ControlSystemView)
    requires
        s.wf(),
    ensures
        s.ticked(None).wf(),
        s.ticked(None).elevators.len() == s.elevators.len(),
        s.ticked(None).floor_count == s.floor_count,
        0 <= s.ticked(None).effort() <= s.effort(),
        0 <= s.ticked(None).patience(),
        s.effort() > 0 && s.elevators.len() >= 1 ==> s.ticked(None).patience() < s.patience(),
{
    let count = s.elevators.len();
    let a = s.advanced(count);
    let d = s.ticked(None);
    let w = s.passengers;
    lemma_ticked(s, None);
    lemma_advanced(s, count);
    lemma_advanced_slack(s, count);
    lemma_dispatched(a.elevators, a.passengers, a.passengers.len(), a.floor_count);
    lemma_dispatched_slacks(a.elevators, a.passengers, a.passengers.len(), a.floor_count);
    assert(loads(d.elevators) =~= loads(a.elevators));
    assert(d.effort() == a.effort());
    lemma_slacks_bounds(s);
    lemma_slacks_bounds(d);
    lemma_loads_bounds(d);
    assert(d.stride() == s.stride());
    lemma_weighted_bounds(
        d.effort(),
        d.effort(),
        d.stride(),
        total(slacks(d.elevators, d.passengers)),
        d.stride() - 1,
    );
    if s.effort() > 0 && count >= 1 {
        if d.effort() == s.effort() {
            assert(a.passengers == w);
            let before = slacks(s.elevators, w);
            let after = slacks(d.elevators, w);
            assert forall|j: int| 0 <= j < count implies #[trigger] after[j] <= before[j] by {
                assert(slack(d.elevators[j], w) <= slack(a.elevators[j], w));
                assert(slack(a.elevators[j], w) <= slack(s.elevators[j], w));
            }
            if exists|j: int| 0 <= j < count && !is_idle(#[trigger] s.elevators[j]) {
                let j = choose|j: int| 0 <= j < count && !is_idle(#[trigger] s.elevators[j]);
                assert(slack(d.elevators[j], w) <= slack(a.elevators[j], w));
                assert(slack(a.elevators[j], w) < slack(s.elevators[j], w));
                assert(after[j] < before[j]);
            } else {
                assert(a.elevators =~= s.elevators);
                assert forall|j: int| 0 <= j < count implies #[trigger] loads(s.elevators)[j] == 0 by {
                    lemma_idle_is_empty(s.elevators[j]);
                }
                lemma_total_bounds(loads(s.elevators), 0);
                assert(w.len() >= 1);
                let j = choose|j: int|
                    0 <= j < count && slack(
                        #[trigger] dispatched(a.elevators, w, w.len())[j],
                        w,
                    ) < slack(a.elevators[j], w);
                assert(after[j] < before[j]);
            }
            lemma_total_compare(after, before);
        }
        lemma_weighted(
            s.effort(),
            d.effort(),
            s.stride(),
            total(slacks(s.elevators, w)),
            total(slacks(d.elevators, d.passengers)),
        );
    }
}

/// The slacks of the elevators of a well-formed simulation add up to less
/// than its stride, and to no less than zero.
pub proof fn lemma_slacks_bounds(s: ControlSystemView)
    requires
        s.wf(),
    ensures
        0 <= total(slacks(s.elevators, s.passengers)) < s.stride(),
{
    let v = slacks(s.elevators, s.passengers);
    assert forall|j: int| 0 <= j < v.len() implies 0 <= #[trigger] v[j] <= most_slack(
        s.floor_count,
    ) by {
        lemma_slack_bounds(s.elevators[j], s.passengers);
    }
    lemma_total_bounds(v, most_slack(s.floor_count));
}

/// The number of passengers aboard the elevators is not negative.
pub proof fn lemma_loads_bounds(s: ControlSystemView)
    ensures
        0 <= total(loads(s.elevators)),
        s.effort() >= 0,
{
    let v = loads(s.elevators);
    if v.len() > 0 {
        lemma_total_member(v, 0);
    }
}

/// Everyone arrives. If nobody joins a simulation with at least one elevator,
/// then after as many ticks as its patience says, and after any number of
/// ticks beyond that, nobody waits and every cabin is empty.
///
/// A passenger leaves the simulation in one way only, by leaving a cabin that
/// holds at the passenger's destination (`lemma_tick_keeps`), so everyone who
/// waited or rode at the start has by then been taken where they wanted to go. The patience grows
/// with the number of elevators, with the number of boardings and exits still
/// to come, and with the height of the building.
pub proof fn lemma_everyone_arrives(s: ControlSystemView, n: nat)
    requires
        s.wf(),
        s.elevators.len() >= 1,
        n >= s.patience(),
    ensures
        s.ticks(n).wf(),
        s.ticks(n).population() == 0,
        s.ticks(n).passengers.len() == 0,
        forall|j: int|
            0 <= j < s.ticks(n).elevators.len() ==> (#[trigger] s.ticks(n).elevators[j]).passengers.len()
                == 0,
    decreases n,
{
    lemma_loads_bounds(s);
    lemma_slacks_bounds(s);
    lemma_tick_patience(s);
    if s.effort() == 0 {
        lemma_no_effort_left(s, n);
    } else {
        lemma_weighted_bounds(1, s.effort(), s.stride(), 0, total(slacks(s.elevators, s.passengers)));
        assert(s.patience() >= 1);
        lemma_everyone_arrives(s.ticked(None), (n - 1) as nat);
    }
}

/// A simulation in which nobody waits and nobody rides stays that way as
/// long as nobody arrives.
pub proof fn lemma_no_effort_left(s: ControlSystemView, n: nat)
    requires
        s.wf(),
        s.effort() == 0,
    ensures
        s.ticks(n).wf(),
        s.ticks(n).population() == 0,
        s.ticks(n).passengers.len() == 0,
        forall|j: int|
            0 <= j < s.ticks(n).elevators.len() ==> (#[trigger] s.ticks(n).elevators[j]).passengers.len()
                == 0,
    decreases n,
{
    lemma_loads_bounds(s);
    if n == 0 {
        let v = loads(s.elevators);
        lemma_total_zero(v);
        assert forall|j: int| 0 <= j < s.elevators.len() implies (#[trigger] s.elevators[j]).passengers.len()
            == 0 by {
            assert(v[j] == 0);
        }
    } else {
        lemma_tick_patience(s);
        lemma_no_effort_left(s.ticked(None), (n - 1) as nat);
    }
}

} // verus!
