//! A bank of elevators serving passengers in a building of fixed height,
//! advanced in discrete ticks.
//!
//! Every elevator is a small state machine over its cabin and its door. It keeps
//! an ordered queue of floors to visit, boards and unloads passengers while its
//! door is open, and receives pickup floors from a dispatcher that looks at all
//! waiting passengers once per tick. The behaviour of each operation is stated
//! over a mathematical model of the data and proved with Verus.
pub mod control;
pub mod dispatch;
pub mod elevator;
pub mod liveness;
pub mod passenger;
pub mod random;
pub mod scan;
pub mod state;
