//! The bounce of a particle off a wall.

use vstd::prelude::*;
use crate::simulator::cell::Cell;
use crate::simulator::cell::same_grid;
use crate::simulator::debug::registered;
use crate::simulator::event::{
    cancel_everywhere, reschedule, scheduled, Candidate, Event, EventType,
};
use crate::simulator::particle::Particle;
use crate::simulator::state::snapshot;
use crate::simulator::scheduler::Scheduler;
use crate::simulator::extrema::Extrema;
use crate::simulator::{faces_wall, is_facing_wall, Domain, Heading, NDIMS};

verus! {

/// What a wall does to the scalar value of a particle that bounces off it.
#[derive(Debug, PartialEq, Eq, Clone, Copy)]
pub enum BoundaryCondition {
    /// The particle takes the mean of its own value and the wall's.
    Dirichlet(u8),
    /// The particle keeps its value.
    Neumann,
}

/// A particle bounces off a wall.
#[derive(Debug, PartialEq, Eq, Clone, Copy)]
pub struct WallReflection {
    /// The involved particle.
    pub p_old: usize,
}

/// The boundary conditions of the two walls of each axis.
pub open spec fn walls() -> Seq<Extrema<BoundaryCondition>> {
    seq![
        Extrema { min: BoundaryCondition::Neumann, max: BoundaryCondition::Neumann },
        Extrema { min: BoundaryCondition::Dirichlet(0), max: BoundaryCondition::Dirichlet(1) },
    ]
}

impl WallReflection {
    /// The boundary condition of the wall that a particle with the given heading
    /// along axis `dim` runs into.
    pub fn boundary_condition(dim: usize, heading: Heading) -> (condition: BoundaryCondition)
        requires
            dim < NDIMS,
        ensures
            condition == match heading {
                Heading::Negative => walls()[dim as int].min,
                Heading::Positive => walls()[dim as int].max,
            },
    {
        let boundary_conditions: [Extrema<BoundaryCondition>; NDIMS] = [
            Extrema { min: BoundaryCondition::Neumann, max: BoundaryCondition::Neumann },
            Extrema { min: BoundaryCondition::Dirichlet(0), max: BoundaryCondition::Dirichlet(1) },
        ];
        match heading {
            Heading::Negative => boundary_conditions[dim].min,
            Heading::Positive => boundary_conditions[dim].max,
        }
    }

    /// The event by which particle `p`, a resident of `cell`, bounces off the wall
    /// that lies in its heading along axis `dim`; none where no wall lies there.
    pub fn schedule<P>(
        domain: &Domain,
        time: u64,
        cell: &Cell<P>,
        dim: usize,
        p: usize,
        heading: Heading,
        prediction: P,
    ) -> (event: Option<Event<P>>)
        requires
            dim < NDIMS,
        ensures
            event is Some <==> faces_wall(
                domain.periodicities[dim as int],
                cell.positions[dim as int],
                heading,
            ),
            event matches Some(e) ==> e.time == time && e.prediction == prediction && e.eventtype
                == EventType::WallReflection(WallReflection { p_old: p }),
    {
        if !is_facing_wall(domain.periodicities[dim], cell.positions[dim], heading) {
            return None;
        }
        Some(
            Event {
                time,
                eventtype: EventType::WallReflection(WallReflection { p_old: p }),
                prediction,
            },
        )
    }

    /// Cancels every pending event of the particle and lists the predictions that
    /// are due for it in each cell of its membership.
    pub fn execute<P>(
        &self,
        particles: &Vec<Particle>,
        cells: &mut Vec<Cell<P>>,
        scheduler: &mut Scheduler,
    ) -> (requests: Vec<Candidate>)
        requires
            registered(particles@, old(cells)@),
            scheduled(old(cells)@, *old(scheduler)),
            self.p_old < particles.len(),
        ensures
            registered(particles@, final(cells)@),
            scheduled(final(cells)@, *final(scheduler)),
            same_grid(old(cells)@, final(cells)@),
            snapshot(particles@, final(cells)@, *final(scheduler)) == snapshot(
                particles@,
                old(cells)@,
                *old(scheduler),
            ).fired(EventType::WallReflection(*self)),
            requests@ == snapshot(particles@, final(cells)@, *final(scheduler)).requests(
                EventType::WallReflection(*self),
            ),
    {
        cancel_everywhere(self.p_old, particles, cells, scheduler);
        let mut requests: Vec<Candidate> = Vec::new();
        reschedule(self.p_old, particles, cells, &mut requests);
        requests
    }
}

} // verus!
