//! The exit of a particle from a cell.

use vstd::prelude::*;
use crate::simulator::cell::Cell;
use crate::simulator::cell::same_grid;
use crate::simulator::debug::registered;
use crate::simulator::util::lemma_remove_value;
use crate::simulator::event::{
    cancel_events, scheduled, sorted, spares, Event, EventType,
    NO_EVENT,
};
use crate::simulator::particle::Particle;
use crate::simulator::state::{lemma_relisted, snapshot};
use crate::simulator::scheduler::{keys, Scheduler};
use crate::simulator::{faces_wall, is_facing_wall, Domain, Heading, NDIMS};

verus! {

/// The disc of a particle no longer overlaps the cell.
#[derive(Debug, PartialEq, Eq, Clone, Copy)]
pub struct MoveOutOfCell {
    /// Index of the cell that the particle leaves.
    pub cell: usize,
    /// The involved particle.
    pub p_old: usize,
}

impl MoveOutOfCell {
    /// The event by which particle `p` leaves `cell` in its heading along axis
    /// `dim`; none where a wall lies there.
    pub fn schedule<P>(
        domain: &Domain,
        time: u64,
        cell: &Cell<P>,
        dim: usize,
        p: usize,
        heading: Heading,
        prediction: P,
    ) -> (event: Option<Event<P>>)
        requires
            dim < NDIMS,
        ensures
            event is None <==> faces_wall(
                domain.periodicities[dim as int],
                cell.positions[dim as int],
                heading,
            ),
            event matches Some(e) ==> e.time == time && e.prediction == prediction && e.eventtype
                == EventType::MoveOutOfCell(MoveOutOfCell { cell: cell.index, p_old: p }),
    {
        if is_facing_wall(domain.periodicities[dim], cell.positions[dim], heading) {
            return None;
        }
        Some(
            Event {
                time,
                eventtype: EventType::MoveOutOfCell(MoveOutOfCell { cell: cell.index, p_old: p }),
                prediction,
            },
        )
    }

    /// Cancels the events of the particle in the cell that it leaves, then makes the
    /// cell forget the particle and the particle the cell.
    pub fn execute<P>(
        &self,
        particles: &mut Vec<Particle>,
        cells: &mut Vec<Cell<P>>,
        scheduler: &mut Scheduler,
    )
        requires
            registered(old(particles)@, old(cells)@),
            scheduled(old(cells)@, *old(scheduler)),
            self.p_old < old(particles).len(),
            self.cell < old(cells).len(),
            old(cells)[self.cell as int].particles@.contains(self.p_old),
        ensures
            registered(final(particles)@, final(cells)@),
            scheduled(final(cells)@, *final(scheduler)),
            same_grid(old(cells)@, final(cells)@),
            snapshot(final(particles)@, final(cells)@, *final(scheduler)) == snapshot(
                old(particles)@,
                old(cells)@,
                *old(scheduler),
            ).fired(EventType::MoveOutOfCell(*self)),
    {
        let p: usize = self.p_old;
        let cell_index: usize = self.cell;
        let ghost before = cells@;
        let ghost owners = particles@;
        assert(owners[p as int].cells@.contains(cell_index));
        let ghost unmended = *scheduler;
        cancel_events(p, cell_index, cells, scheduler);
        let ghost cleared = cells@;
        proof {
            lemma_relisted(
                owners,
                before,
                unmended,
                cleared,
                *scheduler,
                cell_index as int,
                before[cell_index as int].events@.filter(spares(p)),
            );
        }
        cells[cell_index].remove(p);
        particles[p].remove(cell_index);
        proof {
            let after = cells@;
            let members = particles@;
            lemma_remove_value(before[cell_index as int].particles@, p);
            lemma_remove_value(owners[p as int].cells@, cell_index);
            assert forall|q: int| 0 <= q < members.len() implies {
                &&& (#[trigger] members[q]).index == q
                &&& members[q].cells@.no_duplicates()
                &&& forall|k: int|
                    0 <= k < members[q].cells.len() ==> (#[trigger] members[q].cells@[k])
                        < after.len()
            } by {
                assert(owners[q].index == q);
                if q != p {
                    assert(members[q] == owners[q]);
                } else {
                    assert forall|k: int| 0 <= k < members[q].cells.len() implies (
                    #[trigger] members[q].cells@[k]) < after.len() by {
                        let c = members[q].cells@[k];
                        assert(owners[q].cells@.contains(c));
                        let i = choose|i: int|
                            0 <= i < owners[q].cells@.len() && owners[q].cells@[i] == c;
                        assert(owners[q].cells@[i] < before.len());
                    }
                }
            }
            assert forall|c: int| 0 <= c < after.len() implies {
                &&& (#[trigger] after[c]).index == c
                &&& after[c].particles@.no_duplicates()
                &&& forall|k: int|
                    0 <= k < after[c].particles.len() ==> (#[trigger] after[c].particles@[k])
                        < members.len()
            } by {
                assert(before[c].index == c);
                assert(cleared[c].same_place(&before[c]));
                if c != cell_index {
                    assert(after[c] == cleared[c]);
                } else {
                    assert forall|k: int| 0 <= k < after[c].particles.len() implies (
                    #[trigger] after[c].particles@[k]) < members.len() by {
                        let q = after[c].particles@[k];
                        assert(before[c].particles@.contains(q));
                        let i = choose|i: int|
                            0 <= i < before[c].particles@.len() && before[c].particles@[i] == q;
                        assert(before[c].particles@[i] < owners.len());
                    }
                }
            }
            assert forall|q: usize, c: usize|
                #![trigger after[c as int].particles@.contains(q)]
                #![trigger members[q as int].cells@.contains(c)]
                q < members.len() && c < after.len() implies (after[c as int].particles@.contains(q)
                <==> members[q as int].cells@.contains(c)) by {
                assert(before[c as int].particles@.contains(q) <==> owners[q as int].cells@.contains(
                    c,
                ));
                assert(cleared[c as int].same_place(&before[c as int]));
                if c != cell_index {
                    assert(after[c as int] == cleared[c as int]);
                }
                if q != p {
                    assert(members[q as int] == owners[q as int]);
                }
            }
            assert(keys(after) =~= keys(cleared));
            assert forall|c: int| 0 <= c < after.len() implies sorted((#[trigger] after[c]).events@) by {
                assert(sorted(cleared[c].events@));
            }
            assert forall|c: int, i: int|
                0 <= c < after.len() && 0 <= i < after[c].events.len() implies (
            #[trigger] after[c].events@[i]).time < NO_EVENT by {
                assert(cleared[c].events@[i].time < NO_EVENT);
            }
            assert forall|c: int, i: int|
                0 <= c < after.len() && 0 <= i < after[c].events.len() implies (
            #[trigger] after[c].events@[i]).eventtype.hosted_by(after[c], after.len() as int) by {
                let event = cleared[c].events@[i];
                assert(event.eventtype.hosted_by(cleared[c], cleared.len() as int));
                if c != cell_index {
                    assert(after[c] == cleared[c]);
                } else {
                    let kept = before[c].events@.filter(spares(p));
                    assert(kept[i] == event);
                    before[c].events@.lemma_filter_pred(spares::<P>(p), i);
                    assert(!event.eventtype.involves(p));
                }
            }
            assert(snapshot(members, after, *scheduler) =~~= snapshot(
                owners,
                before,
                unmended,
            ).left(p, cell_index));
        }
    }
}

} // verus!
