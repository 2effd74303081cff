//! Event-driven hard-disc kernel.
//!
//! The crate holds the discrete part of an event-driven simulation of hard
//! discs: the grid of cells, the registration of particles in cells, the
//! time-ordered event list of each cell, the heap that finds the cell with
//! the earliest event, and the bookkeeping that follows each event. Times
//! are `u64` keys whose order is the order of the moments they stand for;
//! what an event predicts for its particles travels with it as a value of
//! the caller's own type.

pub mod random;
pub mod simulator;
