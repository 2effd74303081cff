//! The collision of two particles.

use vstd::prelude::*;
use crate::simulator::cell::{same_grid, Cell};
use crate::simulator::debug::registered;
use crate::simulator::event::{
    cancel_everywhere, reschedule, scheduled, Candidate, Event, EventType,
};
use crate::simulator::particle::Particle;
use crate::simulator::state::snapshot;
use crate::simulator::scheduler::Scheduler;

verus! {

/// Two particles touch.
#[derive(Debug, PartialEq, Eq, Clone, Copy)]
pub struct InterParticleCollision {
    /// One of the involved particles.
    pub p_old: usize,
    /// The other involved particle.
    pub q_old: usize,
}

impl InterParticleCollision {
    /// The event by which particles `p` and `q` collide at `time`.
    pub fn schedule<P>(time: u64, p: usize, q: usize, prediction: P) -> (event: Event<P>)
        ensures
            event.time == time,
            event.prediction == prediction,
            event.eventtype == EventType::InterParticleCollision(
                InterParticleCollision { p_old: p, q_old: q },
            ),
    {
        Event {
            time,
            eventtype: EventType::InterParticleCollision(
                InterParticleCollision { p_old: p, q_old: q },
            ),
            prediction,
        }
    }

    /// Cancels every pending event of the two particles and lists the predictions
    /// that are due for them, in each cell of the first and then of the second.
    pub fn execute<P>(
        &self,
        particles: &Vec<Particle>,
        cells: &mut Vec<Cell<P>>,
        scheduler: &mut Scheduler,
    ) -> (requests: Vec<Candidate>)
        requires
            registered(particles@, old(cells)@),
            scheduled(old(cells)@, *old(scheduler)),
            self.p_old < particles.len(),
            self.q_old < particles.len(),
        ensures
            registered(particles@, final(cells)@),
            scheduled(final(cells)@, *final(scheduler)),
            same_grid(old(cells)@, final(cells)@),
            snapshot(particles@, final(cells)@, *final(scheduler)) == snapshot(
                particles@,
                old(cells)@,
                *old(scheduler),
            ).fired(EventType::InterParticleCollision(*self)),
            requests@ == snapshot(particles@, final(cells)@, *final(scheduler)).requests(
                EventType::InterParticleCollision(*self),
            ),
    {
        cancel_everywhere(self.p_old, particles, cells, scheduler);
        cancel_everywhere(self.q_old, particles, cells, scheduler);
        let mut requests: Vec<Candidate> = Vec::new();
        reschedule(self.p_old, particles, cells, &mut requests);
        reschedule(self.q_old, particles, cells, &mut requests);
        requests
    }
}

} // verus!
