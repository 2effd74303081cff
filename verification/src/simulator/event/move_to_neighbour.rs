//! The entry of a particle into a neighbouring cell.

use vstd::prelude::*;
use crate::simulator::cell::Cell;
use crate::simulator::cell::same_grid;
use crate::simulator::debug::registered;
use crate::simulator::util::lemma_push_value;
use crate::simulator::event::{
    schedule_events, scheduled, Candidate, Event, EventType,
};
use crate::simulator::particle::Particle;
use crate::simulator::state::snapshot;
use crate::simulator::scheduler::{keys, Scheduler};
use crate::simulator::{faces_wall, is_facing_wall, Domain, Heading, NDIMS};

verus! {

/// The disc of a particle reaches the neighbouring cell.
#[derive(Debug, PartialEq, Eq, Clone, Copy)]
pub struct MoveToNeighbour {
    /// The involved particle.
    pub p_old: usize,
    /// Index of the cell that learns of the particle.
    pub new_cell_index: usize,
}

impl MoveToNeighbour {
    /// The event by which particle `p`, a resident of `cell`, enters the neighbour
    /// that lies in its heading along axis `dim`; none where a wall lies there.
    pub fn schedule<P>(
        domain: &Domain,
        time: u64,
        cell: &Cell<P>,
        dim: usize,
        p: usize,
        heading: Heading,
        prediction: P,
    ) -> (event: Option<Event<P>>)
        requires
            dim < NDIMS,
        ensures
            event is None <==> faces_wall(
                domain.periodicities[dim as int],
                cell.positions[dim as int],
                heading,
            ),
            event matches Some(e) ==> e.time == time && e.prediction == prediction && e.eventtype
                == EventType::MoveToNeighbour(
                MoveToNeighbour {
                    p_old: p,
                    new_cell_index: match heading {
                        Heading::Negative => cell.neighbours[dim as int].min,
                        Heading::Positive => cell.neighbours[dim as int].max,
                    },
                },
            ),
    {
        if is_facing_wall(domain.periodicities[dim], cell.positions[dim], heading) {
            return None;
        }
        let new_cell_index: usize = match heading {
            Heading::Negative => cell.neighbours[dim].min,
            Heading::Positive => cell.neighbours[dim].max,
        };
        Some(
            Event {
                time,
                eventtype: EventType::MoveToNeighbour(MoveToNeighbour { p_old: p, new_cell_index }),
                prediction,
            },
        )
    }

    /// Registers the particle in the new cell and the cell with the particle, and
    /// lists the predictions that are due for the particle in that cell.
    pub fn execute<P>(
        &self,
        particles: &mut Vec<Particle>,
        cells: &mut Vec<Cell<P>>,
        scheduler: &Scheduler,
    ) -> (requests: Vec<Candidate>)
        requires
            registered(old(particles)@, old(cells)@),
            scheduled(old(cells)@, *scheduler),
            self.p_old < old(particles).len(),
            self.new_cell_index < old(cells).len(),
            !old(cells)[self.new_cell_index as int].particles@.contains(self.p_old),
        ensures
            registered(final(particles)@, final(cells)@),
            scheduled(final(cells)@, *scheduler),
            same_grid(old(cells)@, final(cells)@),
            snapshot(final(particles)@, final(cells)@, *scheduler) == snapshot(
                old(particles)@,
                old(cells)@,
                *scheduler,
            ).fired(EventType::MoveToNeighbour(*self)),
            requests@ == snapshot(final(particles)@, final(cells)@, *scheduler).requests(
                EventType::MoveToNeighbour(*self),
            ),
    {
        let p: usize = self.p_old;
        let cell_index: usize = self.new_cell_index;
        let ghost before = cells@;
        let ghost owners = particles@;
        assert(!owners[p as int].cells@.contains(cell_index));
        cells[cell_index].append(p);
        particles[p].append(cell_index);
        proof {
            let after = cells@;
            let members = particles@;
            lemma_push_value(before[cell_index as int].particles@, p);
            lemma_push_value(owners[p as int].cells@, cell_index);
            assert forall|q: int| 0 <= q < members.len() implies {
                &&& (#[trigger] members[q]).index == q
                &&& members[q].cells@.no_duplicates()
                &&& forall|k: int|
                    0 <= k < members[q].cells.len() ==> (#[trigger] members[q].cells@[k])
                        < after.len()
            } by {
                assert(owners[q].index == q);
                if q != p {
                    assert(members[q] == owners[q]);
                } else {
                    assert forall|k: int| 0 <= k < members[q].cells.len() implies (
                    #[trigger] members[q].cells@[k]) < after.len() by {
                        if k < owners[q].cells.len() {
                            assert(members[q].cells@[k] == owners[q].cells@[k]);
                        }
                    }
                }
            }
            assert forall|c: int| 0 <= c < after.len() implies {
                &&& (#[trigger] after[c]).index == c
                &&& after[c].particles@.no_duplicates()
                &&& forall|k: int|
                    0 <= k < after[c].particles.len() ==> (#[trigger] after[c].particles@[k])
                        < members.len()
            } by {
                assert(before[c].index == c);
                if c != cell_index {
                    assert(after[c] == before[c]);
                } else {
                    assert forall|k: int| 0 <= k < after[c].particles.len() implies (
                    #[trigger] after[c].particles@[k]) < members.len() by {
                        if k < before[c].particles.len() {
                            assert(after[c].particles@[k] == before[c].particles@[k]);
                        }
                    }
                }
            }
            assert forall|q: usize, c: usize|
                #![trigger after[c as int].particles@.contains(q)]
                #![trigger members[q as int].cells@.contains(c)]
                q < members.len() && c < after.len() implies (after[c as int].particles@.contains(q)
                <==> members[q as int].cells@.contains(c)) by {
                assert(before[c as int].particles@.contains(q) <==> owners[q as int].cells@.contains(
                    c,
                ));
                if c != cell_index {
                    assert(after[c as int] == before[c as int]);
                }
                if q != p {
                    assert(members[q as int] == owners[q as int]);
                }
            }
            assert(keys(after) =~= keys(before));
            assert forall|c: int, i: int|
                0 <= c < after.len() && 0 <= i < after[c].events.len() implies (
            #[trigger] after[c].events@[i]).eventtype.hosted_by(after[c], after.len() as int) by {
                assert(before[c].events@[i].eventtype.hosted_by(before[c], before.len() as int));
                if c != cell_index {
                    assert(after[c] == before[c]);
                }
            }
            assert forall|c: int| 0 <= c < after.len() implies crate::simulator::event::sorted(
                (#[trigger] after[c]).events@,
            ) by {
                assert(crate::simulator::event::sorted(before[c].events@));
            }
            assert forall|c: int, i: int|
                0 <= c < after.len() && 0 <= i < after[c].events.len() implies (
            #[trigger] after[c].events@[i]).time < crate::simulator::event::NO_EVENT by {
                assert(before[c].events@[i].time < crate::simulator::event::NO_EVENT);
            }
            assert(snapshot(members, after, *scheduler) =~~= snapshot(
                owners,
                before,
                *scheduler,
            ).entered(p, cell_index));
        }
        schedule_events(p, &cells[cell_index])
    }
}

} // verus!
