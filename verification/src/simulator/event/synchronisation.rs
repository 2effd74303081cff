//! The barrier that brings all particles to one time.

use vstd::prelude::*;
use crate::simulator::event::{Candidate, Event, EventType};

verus! {

/// All particles are brought to one common time.
#[derive(Debug, PartialEq, Eq, Clone, Copy)]
pub struct Synchronisation {
    /// Index of the cell that hosts the barrier.
    pub cell: usize,
}

impl Synchronisation {
    /// The barrier at `time`, hosted by the cell of index `cell`.
    pub fn schedule<P>(time: u64, cell: usize, prediction: P) -> (event: Event<P>)
        ensures
            event.time == time,
            event.prediction == prediction,
            event.eventtype == EventType::Synchronisation(Synchronisation { cell }),
    {
        Event { time, eventtype: EventType::Synchronisation(Synchronisation { cell }), prediction }
    }

    /// Lists what is due after the barrier: the next barrier, in the same cell.
    pub fn execute(&self) -> (requests: Vec<Candidate>)
        ensures
            requests@ == seq![Candidate::Synchronisation { cell: self.cell }],
    {
        let mut requests: Vec<Candidate> = Vec::new();
        requests.push(Candidate::Synchronisation { cell: self.cell });
        requests
    }
}

} // verus!
