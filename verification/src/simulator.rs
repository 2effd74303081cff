//! Cells, particles, events and the scheduler, and the simulator that owns them.

pub mod cell;
pub mod debug;
pub mod event;
pub mod extrema;
pub mod particle;
pub mod scheduler;
pub mod state;
pub mod util;

use vstd::prelude::*;
use crate::simulator::cell::{
    cell_count, fresh_cell, gridded, init_cells, lemma_gridded_kept, same_grid, Cell,
    CellPosition,
};
use crate::simulator::debug::registered;
use crate::simulator::event::{
    init_events, insert_event, lemma_scheduled_kept, process_events, relisted, scheduled,
    Candidate, Event, EventType, Fault, NO_EVENT,
};
use crate::simulator::state::{
    is_earliest, is_idle, lemma_later, lemma_not_later_bound, lemma_relisted, lemma_sound, opening, snapshot, Snapshot,
};
use crate::simulator::event::synchronisation::Synchronisation;
use crate::simulator::particle::{check_duplication, init_particle, Particle};
use crate::simulator::scheduler::Scheduler;

verus! {

/// Number of spatial dimensions.
pub const NDIMS: usize = 2;

/// What the kernel knows of the box: which axes are periodic.
pub struct Domain {
    pub periodicities: [bool; NDIMS],
}

/// The direction in which a particle moves along one axis.
#[derive(Debug, PartialEq, Eq, Clone, Copy)]
pub enum Heading {
    Negative,
    Positive,
}

/// Whether a particle with the given heading, in a cell of the given edge class,
/// moves towards a wall of the box.
pub open spec fn faces_wall(periodicity: bool, position: CellPosition, heading: Heading) -> bool {
    !periodicity && match heading {
        Heading::Negative => position == CellPosition::NegativeEdge,
        Heading::Positive => position == CellPosition::PositiveEdge,
    }
}

/// Executable form of `faces_wall`.
pub fn is_facing_wall(periodicity: bool, position: CellPosition, heading: Heading) -> (b: bool)
    ensures
        b == faces_wall(periodicity, position, heading),
{
    if periodicity {
        false
    } else {
        match heading {
            Heading::Negative => match position {
                CellPosition::NegativeEdge => true,
                _ => false,
            },
            Heading::Positive => match position {
                CellPosition::PositiveEdge => true,
                _ => false,
            },
        }
    }
}

/// After an event has been processed, the cells are still those of the grid and no
/// pending event is earlier than that event.
proof fn lemma_processed<P>(before: Simulator<P>, after: Simulator<P>, fired: Event<P>)
    requires
        before.wf(),
        after.ncells() == before.ncells(),
        same_grid(before.cells(), after.cells()),
        fired == before.state().pending[before.state().host()][0],
        before.state().fault() is None,
        is_earliest(fired, before.state()),
        after.state() == before.state().popped(before.state().host()).fired(fired.eventtype),
    ensures
        gridded(after.cells(), after.ncells()),
        forall|c: int, i: int|
            0 <= c < after.cells().len() && 0 <= i < after.cells()[c].events.len() ==> fired.time
                <= (#[trigger] after.cells()[c].events@[i]).time,
        before.time() <= fired.time,
{
    let host = before.state().host();
    let cells = before.cells();
    lemma_gridded_kept(cells, after.cells(), after.ncells());
    assert(0 <= host < cells.len()) by {
        assert(before.scheduler().heap()[0] < before.scheduler().heap().len());
    }
    assert(fired == cells[host].events@[0]);
    assert(fired.eventtype.hosted_by(cells[host], cells.len() as int));
    assert(cells[host].index == host);
    assert(before.cells.len() <= usize::MAX);
    lemma_sound(before.particles(), cells, before.scheduler());
    assert forall|p: usize| fired.eventtype.involves(p) implies p < before.particles().len() by {
        event::lemma_hosted_involves(fired.eventtype, cells[host], cells.len() as int, p);
        event::lemma_resident_exists(before.particles(), cells, host, p);
    }
    lemma_later(before.state(), after.state(), host, fired);
    assert forall|c: int, i: int|
        0 <= c < after.cells().len() && 0 <= i < after.cells()[c].events.len() implies fired.time
        <= (#[trigger] after.cells()[c].events@[i]).time by {
        assert(after.cells()[c].events@[i] == after.state().pending[c][i]);
    }
}

/// The discrete state of a simulation: the grid of cells, the particles registered
/// in it, and the pending events with the heap that orders them.
pub struct Simulator<P> {
    time: u64,
    domain: Domain,
    ncells: [usize; NDIMS],
    particles: Vec<Particle>,
    cells: Vec<Cell<P>>,
    scheduler: Scheduler,
}

impl<P> Simulator<P> {
    /// The time of the last event that was processed.
    pub closed spec fn time(&self) -> u64 {
        self.time
    }

    /// The periodicity of each axis.
    pub closed spec fn periodicities(&self) -> Seq<bool> {
        self.domain.periodicities@
    }

    /// The number of cells along each axis.
    pub closed spec fn ncells(&self) -> Seq<usize> {
        self.ncells@
    }

    /// The particles.
    pub closed spec fn particles(&self) -> Seq<Particle> {
        self.particles@
    }

    /// The cells, in row-major order.
    pub closed spec fn cells(&self) -> Seq<Cell<P>> {
        self.cells@
    }

    /// The heap of the cells.
    pub closed spec fn scheduler(&self) -> Scheduler {
        self.scheduler
    }

    /// The residents, memberships and pending events, and the order of the heap.
    pub open spec fn state(&self) -> Snapshot<P> {
        snapshot(self.particles(), self.cells(), self.scheduler())
    }

    /// What holds of a simulator between any two calls: the cells are those of a
    /// grid with at least three cells along each axis, particles and cells know of
    /// each other, every event list is sorted and holds only events that its cell
    /// may host, the heap is in order, and no pending event is earlier than the last
    /// one processed.
    pub open spec fn wf(&self) -> bool {
        &&& 0 < self.cells().len()
        &&& forall|d: int| 0 <= d < NDIMS ==> 3 <= #[trigger] self.ncells()[d]
        &&& gridded(self.cells(), self.ncells())
        &&& registered(self.particles(), self.cells())
        &&& scheduled(self.cells(), self.scheduler())
        &&& forall|c: int, i: int|
            0 <= c < self.cells().len() && 0 <= i < self.cells()[c].events.len() ==> self.time()
                <= (#[trigger] self.cells()[c].events@[i]).time
    }

    /// Whether `new_event` may be put into the list of cell `cell_index`: the cell
    /// exists and may host the event, and the event is neither earlier than the
    /// last one processed nor as late as `NO_EVENT`.
    pub open spec fn accepts(&self, new_event: Event<P>, cell_index: usize) -> bool {
        &&& cell_index < self.cells().len()
        &&& self.time() <= new_event.time < NO_EVENT
        &&& new_event.eventtype.hosted_by(
            self.cells()[cell_index as int],
            self.cells().len() as int,
        )
    }

    /// Builds the empty simulator for a box on whose axes `sizes` cells of the
    /// reference size fit: periodic along the first axis, walled along the second.
    pub fn new(sizes: [usize; NDIMS]) -> (simulator: Simulator<P>)
        requires
            cell_count(sizes[0]) * cell_count(sizes[1]) <= usize::MAX,
        ensures
            simulator.wf(),
            simulator.time() == 0,
            simulator.periodicities() == seq![true, false],
            simulator.ncells() == sizes@.map_values(|size: usize| cell_count(size)),
            simulator.particles().len() == 0,
            forall|c: int|
                0 <= c < simulator.cells().len() ==> fresh_cell(
                    #[trigger] simulator.cells()[c],
                    simulator.ncells(),
                    c,
                ),
            simulator.state().heap == Seq::new(simulator.cells().len(), |n: int| n as usize),
    {
        let domain = Domain { periodicities: [true, false] };
        assert(domain.periodicities@ =~= seq![true, false]);
        Simulator::with_domain(sizes, domain)
    }

    /// Builds the empty simulator for the given box, on whose axes `sizes` cells of
    /// the reference size fit.
    pub fn with_domain(sizes: [usize; NDIMS], domain: Domain) -> (simulator: Simulator<P>)
        requires
            cell_count(sizes[0]) * cell_count(sizes[1]) <= usize::MAX,
        ensures
            simulator.wf(),
            simulator.time() == 0,
            simulator.periodicities() == domain.periodicities@,
            simulator.ncells() == sizes@.map_values(|size: usize| cell_count(size)),
            simulator.particles().len() == 0,
            forall|c: int|
                0 <= c < simulator.cells().len() ==> fresh_cell(
                    #[trigger] simulator.cells()[c],
                    simulator.ncells(),
                    c,
                ),
            simulator.state().heap == Seq::new(simulator.cells().len(), |n: int| n as usize),
    {
        let (ncells, cells) = init_cells::<P>(&sizes);
        let particles: Vec<Particle> = Vec::new();
        let scheduler = Scheduler::new(&cells);
        proof {
            reveal_with_fuel(cell::stride, 3);
            assert(ncells@[0] == cell_count(sizes[0]));
            assert(ncells@[1] == cell_count(sizes[1]));
            assert(0 < 1 * ncells[0] * ncells[1]) by (nonlinear_arith)
                requires
                    3 <= ncells[0],
                    3 <= ncells[1],
            ;
            assert forall|c: int| 0 <= c < cells.len() implies fresh_cell(
                #[trigger] cells[c],
                ncells@,
                c,
            ) by {}
            assert forall|c: int| 0 <= c < cells.len() implies event::sorted(
                (#[trigger] cells[c]).events@,
            ) by {
                assert(fresh_cell(cells[c], ncells@, c));
            }
            assert forall|c: int| 0 <= c < cells.len() implies (#[trigger] cells[c]).events.len()
                == 0 by {
                assert(fresh_cell(cells[c], ncells@, c));
            }
            assert forall|c: int| 0 <= c < cells.len() implies {
                &&& (#[trigger] cells[c]).index == c
                &&& cells[c].particles@.no_duplicates()
                &&& forall|k: int|
                    0 <= k < cells[c].particles.len() ==> (#[trigger] cells[c].particles@[k])
                        < particles.len()
            } by {
                assert(fresh_cell(cells[c], ncells@, c));
            }
            assert forall|p: usize, c: usize|
                #![trigger cells[c as int].particles@.contains(p)]
                #![trigger particles[p as int].cells@.contains(c)]
                p < particles.len() && c < cells.len() implies (cells[c as int].particles@.contains(
                p,
            ) <==> particles[p as int].cells@.contains(c)) by {}
        }
        Simulator { time: 0, domain, ncells, particles, cells, scheduler }
    }

    /// Creates the next particle and registers it in each of the given cells. Returns
    /// its index, or nothing where the list names a cell twice or a cell that does
    /// not exist.
    pub fn init_particle(&mut self, cell_indices: Vec<usize>) -> (index: Option<usize>)
        requires
            old(self).wf(),
        ensures
            final(self).wf(),
            final(self).time() == old(self).time(),
            final(self).ncells() == old(self).ncells(),
            final(self).periodicities() == old(self).periodicities(),
            same_grid(old(self).cells(), final(self).cells()),
            index is Some <==> cell_indices@.no_duplicates() && forall|k: int|
                0 <= k < cell_indices.len() ==> (#[trigger] cell_indices[k]) < old(self).cells().len(),
            match index {
                Some(p) => p == old(self).particles().len() && final(self).state() == old(
                    self,
                ).state().placed(cell_indices@),
                None => final(self).state() == old(self).state(),
            },
    {
        if check_duplication(&cell_indices) {
            return None;
        }
        let mut k: usize = 0;
        while k < cell_indices.len()
            invariant
                k <= cell_indices.len(),
                self.cells@.len() == old(self).cells().len(),
                *self == *old(self),
                old(self).wf(),
                forall|i: int| 0 <= i < k ==> (#[trigger] cell_indices[i]) < self.cells@.len(),
            decreases cell_indices.len() - k,
        {
            if cell_indices[k] >= self.cells.len() {
                return None;
            }
            k += 1;
        }
        let ghost before = self.cells@;
        let ghost owners = self.particles@;
        let ghost membership = cell_indices@;
        let index: usize = init_particle(&mut self.particles, &mut self.cells, cell_indices);
        proof {
            let after = self.cells@;
            assert forall|c: int| 0 <= c < before.len() implies (#[trigger] after[c]).index
                == before[c].index && after[c].events@ == before[c].events@ && forall|p: usize|
                before[c].particles@.contains(p) ==> after[c].particles@.contains(p) by {
                assert forall|p: usize| before[c].particles@.contains(p) implies after[c].particles@.contains(
                    p,
                ) by {
                    util::lemma_contains_push(before[c].particles@, index, p);
                }
            }
            lemma_scheduled_kept(before, after, self.scheduler);
            lemma_gridded_kept(before, after, self.ncells@);
            assert(snapshot(self.particles@, after, self.scheduler) =~~= snapshot(
                owners,
                before,
                self.scheduler,
            ).placed(membership));
            assert forall|c: int, i: int|
                0 <= c < after.len() && 0 <= i < after[c].events.len() implies self.time <= (
            #[trigger] after[c].events@[i]).time by {
                assert(before[c].events@[i].time >= self.time);
            }
        }
        Some(index)
    }

    /// Puts the first barrier, at `time`, into the list of the first cell, and lists
    /// for each cell the predictions that are due among its residents. Does nothing
    /// where `time` is earlier than the last event processed or as late as
    /// `NO_EVENT`.
    pub fn init_events(&mut self, time: u64, prediction: P) -> (requests: Option<Vec<Candidate>>)
        requires
            old(self).wf(),
        ensures
            final(self).wf(),
            final(self).time() == old(self).time(),
            final(self).ncells() == old(self).ncells(),
            final(self).periodicities() == old(self).periodicities(),
            same_grid(old(self).cells(), final(self).cells()),
            requests is Some <==> old(self).time() <= time < NO_EVENT,
            match requests {
                Some(list) => final(self).state() == old(self).state().inserted(
                    0,
                    Event {
                        time,
                        eventtype: EventType::Synchronisation(Synchronisation { cell: 0 }),
                        prediction,
                    },
                ) && list@ == opening(final(self).cells(), final(self).cells().len() as int),
                None => final(self).state() == old(self).state(),
            },
    {
        if time < self.time || time == NO_EVENT {
            return None;
        }
        let ghost before = self.cells@;
        let ghost unmended = self.scheduler;
        assert(before[0].index == 0);
        let requests = init_events(time, prediction, &mut self.cells, &mut self.scheduler);
        proof {
            self.lemma_inserted(before, unmended, 0, Event {
                time,
                eventtype: EventType::Synchronisation(Synchronisation { cell: 0 }),
                prediction,
            });
        }
        Some(requests)
    }

    /// After an insertion into the list of one cell the simulator is as before but
    /// for that list.
    proof fn lemma_inserted(
        &self,
        before: Seq<Cell<P>>,
        unmended: Scheduler,
        c: int,
        new_event: Event<P>,
    )
        requires
            0 <= c < before.len(),
            forall|d: int| 0 <= d < NDIMS ==> 3 <= #[trigger] self.ncells@[d],
            gridded(before, self.ncells@),
            registered(self.particles@, before),
            scheduled(self.cells@, self.scheduler),
            self.time <= new_event.time,
            forall|c: int, i: int|
                0 <= c < before.len() && 0 <= i < before[c].events.len() ==> self.time <= (
                #[trigger] before[c].events@[i]).time,
            relisted(
                before,
                unmended.heap(),
                self.cells@,
                self.scheduler.heap(),
                c,
                before[c].events@.insert(
                    event::not_later(before[c].events@, new_event.time) as int,
                    new_event,
                ),
            ),
        ensures
            self.wf(),
            same_grid(before, self.cells()),
            self.state() == snapshot(self.particles@, before, unmended).inserted(c, new_event),
    {
        let after = self.cells@;
        let pending = before[c].events@;
        let slot = event::not_later(pending, new_event.time) as int;
        assert(0 <= slot <= pending.len()) by {
            lemma_not_later_bound(pending, new_event.time);
        }
        assert(same_grid(before, after)) by {
            assert forall|i: int| 0 <= i < before.len() implies (#[trigger] after[i]).index
                == before[i].index && after[i].positions == before[i].positions
                && after[i].neighbours == before[i].neighbours by {
                assert(after[i].same_place(&before[i]));
            }
        }
        lemma_gridded_kept(before, after, self.ncells@);
        assert forall|i: int| 0 <= i < before.len() implies (#[trigger] after[i]).index
            == before[i].index && after[i].particles@ == before[i].particles@ by {
            assert(after[i].same_place(&before[i]));
        }
        event::lemma_registered_kept(self.particles@, before, after);
        assert forall|k: int, i: int|
            0 <= k < after.len() && 0 <= i < after[k].events.len() implies self.time <= (
        #[trigger] after[k].events@[i]).time by {
            assert(after[k].same_place(&before[k]));
            if k == c {
                let listed = pending.insert(slot, new_event);
                if i < slot {
                    assert(listed[i] == pending[i]);
                } else if i > slot {
                    assert(listed[i] == pending[i - 1]);
                }
            } else {
                assert(after[k].events@[i] == before[k].events@[i]);
            }
        }
        lemma_relisted(
            self.particles@,
            before,
            unmended,
            after,
            self.scheduler,
            c,
            pending.insert(slot, new_event),
        );
    }

    /// Inserts a new event into the list of the given cell, behind every pending
    /// event that is not later than it. Hands the event back where the simulator
    /// does not accept it.
    pub fn insert_event(&mut self, new_event: Event<P>, cell_index: usize) -> (refused: Option<
        Event<P>,
    >)
        requires
            old(self).wf(),
        ensures
            final(self).wf(),
            final(self).time() == old(self).time(),
            final(self).ncells() == old(self).ncells(),
            final(self).periodicities() == old(self).periodicities(),
            same_grid(old(self).cells(), final(self).cells()),
            if old(self).accepts(new_event, cell_index) {
                refused is None && final(self).state() == old(self).state().inserted(
                    cell_index as int,
                    new_event,
                )
            } else {
                refused == Some(new_event) && final(self).state() == old(self).state()
            },
    {
        if cell_index >= self.cells.len() || new_event.time < self.time || new_event.time
            == NO_EVENT {
            return Some(new_event);
        }
        if !new_event.eventtype.is_hosted_by(&self.cells[cell_index], self.cells.len()) {
            return Some(new_event);
        }
        let ghost before = self.cells@;
        let ghost unmended = self.scheduler;
        insert_event(new_event, cell_index, &mut self.cells, &mut self.scheduler);
        proof {
            self.lemma_inserted(before, unmended, cell_index as int, new_event);
        }
        None
    }

    /// Processes the next event: takes the earliest pending event out of its cell,
    /// registers or forgets the particle where the event says so and cancels the
    /// events that it outdates. Returns the event together with the predictions
    /// that are due after it.
    pub fn integrate(&mut self) -> (turn: Result<(Event<P>, Vec<Candidate>), Fault>)
        requires
            old(self).wf(),
        ensures
            final(self).wf(),
            final(self).ncells() == old(self).ncells(),
            final(self).periodicities() == old(self).periodicities(),
            same_grid(old(self).cells(), final(self).cells()),
            old(self).time() <= final(self).time(),
            turn matches Err(Fault::NoEvent) ==> is_idle(old(self).state()),
            match old(self).state().fault() {
                Some(f) => {
                    &&& turn matches Err(g) && g == f
                    &&& final(self).state() == old(self).state()
                    &&& final(self).time() == old(self).time()
                },
                None => {
                    &&& turn matches Ok((event, requests))
                    &&& event == old(self).state().pending[old(self).state().host()][0]
                    &&& final(self).time() == event.time
                    &&& is_earliest(event, old(self).state())
                    &&& final(self).state() == old(self).state().popped(
                        old(self).state().host(),
                    ).fired(event.eventtype)
                    &&& requests@ == final(self).state().requests(event.eventtype)
                },
            },
    {
        let ghost before = *self;
        let turn = process_events(&mut self.particles, &mut self.cells, &mut self.scheduler);
        match turn {
            Ok((event, requests)) => {
                proof {
                    lemma_processed(before, *self, event);
                }
                self.time = event.time;
                Ok((event, requests))
            },
            Err(f) => Err(f),
        }
    }

    /// The particles.
    pub fn get_particles(&self) -> (particles: &Vec<Particle>)
        ensures
            particles@ == self.particles(),
    {
        &self.particles
    }

    /// The cells, in row-major order.
    pub fn get_cells(&self) -> (cells: &Vec<Cell<P>>)
        ensures
            cells@ == self.cells(),
    {
        &self.cells
    }

    /// The number of cells along each axis.
    pub fn get_ncells(&self) -> (ncells: [usize; NDIMS])
        ensures
            ncells@ == self.ncells(),
    {
        self.ncells
    }

    /// The box.
    pub fn get_domain(&self) -> (domain: &Domain)
        ensures
            domain.periodicities@ == self.periodicities(),
    {
        &self.domain
    }

    /// The time of the last event that was processed.
    pub fn get_time(&self) -> (time: u64)
        ensures
            time == self.time(),
    {
        self.time
    }
}

} // verus!
