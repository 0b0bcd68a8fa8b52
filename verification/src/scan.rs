//! The order in which an elevator visits the floors it has been asked for.
//!
//! A queue of stops is kept in sweep order, seen from the floor the cabin is
//! at: the cabin first serves the stops that lie ahead of it, nearest first,
//! and then the stops behind it, again nearest first. It heads up as long as
//! any stop lies above it.
use std::collections::VecDeque;
use vstd::prelude::*;
use vstd::relations::{sorted_by, total_ordering};
use vstd::seq_lib::lemma_sorted_unique;

verus! {

/// The cabin heads up: some stop of the queue lies strictly above `floor`.
pub open spec fn going_up(queue: Seq<i32>, floor: i32) -> bool {
    exists|i: int| 0 <= i < queue.len() && queue[i] > floor
}

/// Stop `a` is served no later than stop `b` by a cabin at `floor`.
///
/// Heading up, the stops at or above the cabin come first, lowest first, and
/// the stops below it follow, highest first. Heading down is the mirror image.
pub open spec fn precedes(floor: i32, up: bool, a: i32, b: i32) -> bool {
    if up {
        if a >= floor && b >= floor {
            a <= b
        } else if a < floor && b < floor {
            b <= a
        } else {
            a >= floor
        }
    } else {
        if a <= floor && b <= floor {
            b <= a
        } else if a > floor && b > floor {
            a <= b
        } else {
            a <= floor
        }
    }
}

/// `precedes` for a fixed floor and heading, as a relation on stops.
pub open spec fn scan_order(floor: i32, up: bool) -> spec_fn(i32, i32) -> bool {
    |a: i32, b: i32| precedes(floor, up, a, b)
}

/// The stops of `queue` in sweep order for a cabin at `floor`.
pub open spec fn scan_sorted(queue: Seq<i32>, floor: i32) -> Seq<i32> {
    queue.sort_by(scan_order(floor, going_up(queue, floor)))
}

/// The queue after `stop` has been asked for: unchanged if the stop is already
/// queued, and otherwise all stops, the new one among them, in sweep order for
/// a cabin at `floor`.
pub open spec fn with_stop(queue: Seq<i32>, floor: i32, stop: i32) -> Seq<i32> {
    if queue.contains(stop) {
        queue
    } else {
        scan_sorted(queue.push(stop), floor)
    }
}

/// For every floor and heading, `precedes` orders all stops totally.
pub proof fn lemma_scan_order_total(floor: i32, up: bool)
    ensures
        total_ordering(scan_order(floor, up)),
{
    let r = scan_order(floor, up);
    assert forall|x: i32, y: i32, z: i32| #[trigger] r(x, y) && #[trigger] r(y, z) implies r(
        x,
        z,
    ) by {
        assert(precedes(floor, up, x, y) && precedes(floor, up, y, z));
    }
    assert forall|x: i32, y: i32| #[trigger] r(x, y) && #[trigger] r(y, x) implies x == y by {
        assert(precedes(floor, up, x, y) && precedes(floor, up, y, x));
    }
    assert forall|x: i32, y: i32| #[trigger] r(x, y) || #[trigger] r(y, x) by {
        assert(precedes(floor, up, x, y) || precedes(floor, up, y, x));
    }
    assert forall|x: i32| #[trigger] r(x, x) by {
        assert(precedes(floor, up, x, x));
    }
}

/// Two sequences with the same elements, counted with multiplicity, are both or
/// neither free of duplicates, hold the same stops and have the same length.
pub proof fn lemma_same_stops(a: Seq<i32>, b: Seq<i32>)
    requires
        a.to_multiset() == b.to_multiset(),
    ensures
        a.len() == b.len(),
        forall|x: i32| #[trigger] a.contains(x) <==> #[trigger] b.contains(x),
        a.no_duplicates() ==> b.no_duplicates(),
{
    vstd::seq_lib::to_multiset_len(a);
    vstd::seq_lib::to_multiset_len(b);
    assert forall|x: i32| #[trigger] a.contains(x) <==> #[trigger] b.contains(x) by {
        vstd::seq_lib::to_multiset_contains(a, x);
        vstd::seq_lib::to_multiset_contains(b, x);
    }
    if a.no_duplicates() {
        a.lemma_multiset_has_no_duplicates();
        b.lemma_multiset_has_no_duplicates_conv();
    }
}

/// Sorting rearranges: `scan_sorted` is in sweep order, holds exactly the stops
/// of the queue, each as often as the queue does, and so keeps a queue without
/// duplicates free of them.
pub proof fn lemma_scan_sorted(queue: Seq<i32>, floor: i32)
    ensures
        sorted_by(scan_sorted(queue, floor), scan_order(floor, going_up(queue, floor))),
        scan_sorted(queue, floor).to_multiset() == queue.to_multiset(),
        scan_sorted(queue, floor).len() == queue.len(),
        forall|x: i32| #[trigger] scan_sorted(queue, floor).contains(x) <==> queue.contains(x),
        queue.no_duplicates() ==> scan_sorted(queue, floor).no_duplicates(),
{
    let order = scan_order(floor, going_up(queue, floor));
    lemma_scan_order_total(floor, going_up(queue, floor));
    queue.lemma_sort_by_ensures(order);
    lemma_same_stops(queue, scan_sorted(queue, floor));
}

/// Asking for a stop keeps a queue free of duplicates and adds that stop to
/// it, and nothing else.
pub proof fn lemma_with_stop(queue: Seq<i32>, floor: i32, stop: i32)
    requires
        queue.no_duplicates(),
    ensures
        with_stop(queue, floor, stop).no_duplicates(),
        forall|x: i32| #[trigger]
            with_stop(queue, floor, stop).contains(x) <==> queue.contains(x) || x == stop,
        with_stop(queue, floor, stop).len() == if queue.contains(stop) {
            queue.len()
        } else {
            queue.len() + 1
        },
{
    if !queue.contains(stop) {
        let longer = queue.push(stop);
        assert(longer.no_duplicates());
        lemma_scan_sorted(longer, floor);
        assert forall|x: i32| longer.contains(x) <==> queue.contains(x) || x == stop by {
            if queue.contains(x) {
                let i = choose|i: int| 0 <= i < queue.len() && queue[i] == x;
                assert(longer[i] == x);
            }
            if x == stop {
                assert(longer[queue.len() as int] == x);
            }
        }
    }
}

/// Whether stop `a` is served no later than stop `b` by a cabin at `floor`
/// with the given heading.
pub fn comes_before(floor: i32, up: bool, a: i32, b: i32) -> (r: bool)
    ensures
        r == precedes(floor, up, a, b),
{
    if up {
        if a >= floor && b >= floor {
            a <= b
        } else if a < floor && b < floor {
            b <= a
        } else {
            a >= floor
        }
    } else {
        if a <= floor && b <= floor {
            b <= a
        } else if a > floor && b > floor {
            a <= b
        } else {
            a <= floor
        }
    }
}

/// Whether some stop of the queue lies strictly above `floor`.
pub fn heads_up(queue: &VecDeque<i32>, floor: i32) -> (r: bool)
    ensures
        r == going_up(queue@, floor),
{
    let mut i: usize = 0;
    while i < queue.len()
        invariant
            i <= queue@.len(),
            forall|j: int| 0 <= j < i ==> queue@[j] <= floor,
        decreases queue@.len() - i,
    {
        if queue[i] > floor {
            return true;
        }
        i += 1;
    }
    false
}

/// Whether `stop` is in the queue.
pub fn holds(queue: &VecDeque<i32>, stop: i32) -> (r: bool)
    ensures
        r == queue@.contains(stop),
{
    let mut i: usize = 0;
    while i < queue.len()
        invariant
            i <= queue@.len(),
            forall|j: int| 0 <= j < i ==> queue@[j] != stop,
        decreases queue@.len() - i,
    {
        if queue[i] == stop {
            return true;
        }
        i += 1;
    }
    false
}

/// The stops of `queue` in sweep order for a cabin at `floor`.
///
/// Each stop in turn is put into a second queue, at the place where the sweep
/// reaches it.
pub fn sorted(queue: &VecDeque<i32>, floor: i32) -> (out: VecDeque<i32>)
    ensures
        out@ == scan_sorted(queue@, floor),
{
    let up = heads_up(queue, floor);
    let ghost order = scan_order(floor, up);
    let mut out: VecDeque<i32> = VecDeque::new();
    let mut k: usize = 0;
    proof {
        lemma_scan_order_total(floor, up);
        assert(queue@.subrange(0, 0) =~= out@);
    }
    while k < queue.len()
        invariant
            k <= queue@.len(),
            order == scan_order(floor, up),
            total_ordering(order),
            sorted_by(out@, order),
            out@.to_multiset() == queue@.subrange(0, k as int).to_multiset(),
        decreases queue@.len() - k,
    {
        let stop = queue[k];
        let mut at: usize = 0;
        while at < out.len() && !comes_before(floor, up, stop, out[at])
            invariant
                at <= out@.len(),
                order == scan_order(floor, up),
                forall|j: int| 0 <= j < at ==> precedes(floor, up, #[trigger] out@[j], stop),
            decreases out@.len() - at,
        {
            proof {
                assert(order(stop, out@[at as int]) || order(out@[at as int], stop));
            }
            at += 1;
        }
        let ghost before = out@;
        out.insert(at, stop);
        proof {
            let after = out@;
            assert forall|i: int, j: int| 0 <= i < j < after.len() implies #[trigger] order(
                after[i],
                after[j],
            ) by {
                if j < at {
                    assert(order(before[i], before[j]));
                } else if j == at {
                    assert(precedes(floor, up, before[i], stop));
                } else if i < at {
                    assert(order(before[i], before[j - 1]));
                } else if i == at {
                    assert(order(stop, before[at as int]));
                    if j - 1 > at {
                        assert(order(before[at as int], before[j - 1]));
                    }
                } else {
                    assert(order(before[i - 1], before[j - 1]));
                }
            }
            vstd::seq_lib::to_multiset_insert(before, at as int, stop);
            assert(queue@.subrange(0, k + 1) =~= queue@.subrange(0, k as int).push(stop));
            vstd::seq_lib::to_multiset_build(queue@.subrange(0, k as int), stop);
        }
        k += 1;
    }
    proof {
        assert(queue@.subrange(0, k as int) =~= queue@);
        queue@.lemma_sort_by_ensures(order);
        lemma_sorted_unique(out@, queue@.sort_by(order), order);
    }
    out
}

} // verus!
