use elevator_sim::scan::{comes_before, heads_up, holds, sorted};
use std::collections::VecDeque;

fn queue(stops: &[i32]) -> VecDeque<i32> {
    stops.iter().copied().collect()
}

fn stops(queue: &VecDeque<i32>) -> Vec<i32> {
    queue.iter().copied().collect()
}

#[test]
fn heading_up_serves_floors_above_first() {
    let q = queue(&[1, 5, 3, 0, 4]);
    assert_eq!(stops(&sorted(&q, 3)), vec![3, 4, 5, 1, 0]);
}

#[test]
fn heading_up_from_below_every_stop() {
    let q = queue(&[7, 2, 9, 4]);
    assert_eq!(stops(&sorted(&q, 0)), vec![2, 4, 7, 9]);
}

#[test]
fn heading_down_serves_nearest_floor_below_first() {
    let q = queue(&[0, 3, 1, 2]);
    assert_eq!(stops(&sorted(&q, 3)), vec![3, 2, 1, 0]);
}

#[test]
fn one_floor_above_turns_the_sweep_up() {
    let q = queue(&[0, 1, 2, 4]);
    assert_eq!(stops(&sorted(&q, 3)), vec![4, 2, 1, 0]);
}

#[test]
fn sorting_an_empty_queue_gives_an_empty_queue() {
    let q = queue(&[]);
    assert!(sorted(&q, 2).is_empty());
}

#[test]
fn sorting_a_single_stop_keeps_it() {
    assert_eq!(stops(&sorted(&queue(&[6]), 2)), vec![6]);
    assert_eq!(stops(&sorted(&queue(&[1]), 2)), vec![1]);
}

#[test]
fn sorting_keeps_every_stop_once() {
    let q = queue(&[8, 1, 6, 3, 5, 0, 9]);
    let out = sorted(&q, 5);
    assert_eq!(out.len(), q.len());
    for s in q.iter() {
        assert_eq!(out.iter().filter(|x| *x == s).count(), 1);
    }
    assert_eq!(stops(&out), vec![5, 6, 8, 9, 3, 1, 0]);
}

#[test]
fn sorting_twice_changes_nothing_more() {
    let q = queue(&[8, 1, 6, 3, 5, 0, 9]);
    let once = sorted(&q, 4);
    let twice = sorted(&once, 4);
    assert_eq!(once, twice);
}

#[test]
fn own_floor_comes_first_in_either_heading() {
    assert_eq!(sorted(&queue(&[0, 2, 1]), 2)[0], 2);
    assert_eq!(sorted(&queue(&[0, 2, 5]), 2)[0], 2);
}

#[test]
fn comes_before_heading_up() {
    // both at or above the cabin: lower first
    assert!(comes_before(3, true, 3, 5));
    assert!(!comes_before(3, true, 5, 4));
    // both below: higher first
    assert!(comes_before(3, true, 2, 0));
    assert!(!comes_before(3, true, 0, 2));
    // one on either side: the one ahead first
    assert!(comes_before(3, true, 7, 2));
    assert!(!comes_before(3, true, 2, 7));
    // a stop is never later than itself
    assert!(comes_before(3, true, 4, 4));
}

#[test]
fn comes_before_heading_down() {
    assert!(comes_before(3, false, 3, 1));
    assert!(!comes_before(3, false, 1, 2));
    assert!(comes_before(3, false, 4, 6));
    assert!(!comes_before(3, false, 6, 4));
    assert!(comes_before(3, false, 0, 4));
    assert!(!comes_before(3, false, 4, 0));
    assert!(comes_before(3, false, 1, 1));
}

#[test]
fn heads_up_only_with_a_stop_strictly_above() {
    assert!(heads_up(&queue(&[0, 4]), 3));
    assert!(!heads_up(&queue(&[0, 3]), 3));
    assert!(!heads_up(&queue(&[]), 0));
}

#[test]
fn holds_finds_queued_stops_only() {
    let q = queue(&[4, 1]);
    assert!(holds(&q, 4));
    assert!(holds(&q, 1));
    assert!(!holds(&q, 0));
    assert!(!holds(&queue(&[]), 0));
}
