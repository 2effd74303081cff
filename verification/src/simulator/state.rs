//! The state that events act on, as plain lists, and what each event makes of it.

use vstd::prelude::*;
use crate::simulator::cell::Cell;
use crate::simulator::debug::registered;
use crate::simulator::util::{lemma_contains_push, lemma_filter_all, lemma_filtered_subset};
use crate::simulator::event::synchronisation::Synchronisation;
use crate::simulator::event::{
    head_time, lemma_hosted_involves, not_later, relisted, scheduled, spares, Candidate, Event,
    EventType, Fault,
};
use crate::simulator::particle::Particle;
use crate::simulator::scheduler::{keys, repaired, Scheduler};
use crate::simulator::NDIMS;

verus! {

/// The state that events act on, as plain lists: the residents of each cell, the
/// cells of each particle, the pending events of each cell, and the cells in the
/// order of the heap.
#[verifier::ext_equal]
pub struct Snapshot<P> {
    pub residents: Seq<Seq<usize>>,
    pub membership: Seq<Seq<usize>>,
    pub pending: Seq<Seq<Event<P>>>,
    pub heap: Seq<usize>,
}

/// The snapshot of the given particles, cells and heap.
pub open spec fn snapshot<P>(
    particles: Seq<Particle>,
    cells: Seq<Cell<P>>,
    scheduler: Scheduler,
) -> Snapshot<P> {
    Snapshot {
        residents: residents_of(cells),
        membership: Seq::new(particles.len(), |p: int| particles[p].cells@),
        pending: Seq::new(cells.len(), |c: int| cells[c].events@),
        heap: scheduler.heap(),
    }
}

/// The residents of each cell.
pub open spec fn residents_of<P>(cells: Seq<Cell<P>>) -> Seq<Seq<usize>> {
    Seq::new(cells.len(), |c: int| cells[c].particles@)
}

/// The candidates of particle `p` in the first `upto` cells of its membership.
pub open spec fn rounds(
    residents: Seq<Seq<usize>>,
    membership: Seq<usize>,
    p: usize,
    upto: int,
) -> Seq<Candidate>
    decreases upto,
{
    if upto <= 0 {
        Seq::empty()
    } else {
        let c = membership[upto - 1];
        rounds(residents, membership, p, upto - 1) + candidates(residents[c as int], c, p)
    }
}

/// The candidates of particle `p` in every cell of its membership.
pub open spec fn rescheduled(residents: Seq<Seq<usize>>, membership: Seq<usize>, p: usize) -> Seq<
    Candidate,
> {
    rounds(residents, membership, p, membership.len() as int)
}

/// The key of each cell for the given event lists: the time of the first event.
pub open spec fn timetable<P>(pending: Seq<Seq<Event<P>>>) -> Seq<u64> {
    Seq::new(pending.len(), |c: int| head_time(pending[c]))
}

/// The test that a particle passes when it is not `p`.
pub open spec fn other_than(p: usize) -> spec_fn(usize) -> bool {
    |q: usize| q != p
}

/// The collision of `p` with a resident `q` of the cell, as a candidate.
pub open spec fn collision_with(cell: usize, p: usize) -> spec_fn(usize) -> Candidate {
    |q: usize| Candidate::InterParticleCollision { cell, p, q }
}

/// The collisions of `p` with each other resident, in the residents' order.
pub open spec fn rivals(residents: Seq<usize>, cell: usize, p: usize) -> Seq<Candidate> {
    residents.filter(other_than(p)).map_values(collision_with(cell, p))
}

/// The events of `p` at the bounds of the cell: for each kind, one per axis.
pub open spec fn crossings(cell: usize, p: usize) -> Seq<Candidate> {
    Seq::new(NDIMS as nat, |dim: int| Candidate::MoveToNeighbour { cell, dim: dim as usize, p })
        + Seq::new(
        NDIMS as nat,
        |dim: int| Candidate::MoveOutOfCell { cell, dim: dim as usize, p },
    ) + Seq::new(NDIMS as nat, |dim: int| Candidate::WallReflection { cell, dim: dim as usize, p })
}

/// Every prediction that involves `p` in a cell with the given residents.
pub open spec fn candidates(residents: Seq<usize>, cell: usize, p: usize) -> Seq<Candidate> {
    rivals(residents, cell, p) + crossings(cell, p)
}

impl<P> Snapshot<P> {
    /// With `events` as the list of cell `c`, and the heap repaired for the new
    /// time of that cell's first event.
    pub open spec fn relisted(self, c: int, events: Seq<Event<P>>) -> Snapshot<P> {
        let pending = self.pending.update(c, events);
        Snapshot {
            pending,
            heap: repaired(
                self.heap,
                timetable(pending),
                self.heap.index_of(c as usize),
                head_time(self.pending[c]),
            ),
            ..self
        }
    }

    /// Without the first pending event of cell `c`.
    pub open spec fn popped(self, c: int) -> Snapshot<P> {
        self.relisted(c, self.pending[c].drop_first())
    }

    /// With `event` inserted into the list of cell `c`, behind the events that are
    /// not later.
    pub open spec fn inserted(self, c: int, event: Event<P>) -> Snapshot<P> {
        self.relisted(
            c,
            self.pending[c].insert(not_later(self.pending[c], event.time) as int, event),
        )
    }

    /// Without the pending events of cell `c` that refer to particle `p`.
    pub open spec fn cleared(self, p: usize, c: usize) -> Snapshot<P> {
        self.relisted(c as int, self.pending[c as int].filter(spares(p)))
    }

    /// Without the pending events that refer to particle `p` in the first `upto`
    /// cells of its membership, cleared cell after cell.
    pub open spec fn cancelled_in(self, p: usize, upto: int) -> Snapshot<P>
        decreases upto,
    {
        if upto <= 0 {
            self
        } else {
            self.cancelled_in(p, upto - 1).cleared(p, self.membership[p as int][upto - 1])
        }
    }

    /// Without the pending events that refer to particle `p`, in each cell of its
    /// membership.
    pub open spec fn cancelled(self, p: usize) -> Snapshot<P> {
        self.cancelled_in(p, self.membership[p as int].len() as int)
    }

    /// With one more particle, registered in each of the given cells.
    pub open spec fn placed(self, cell_indices: Seq<usize>) -> Snapshot<P> {
        Snapshot {
            residents: Seq::new(
                self.residents.len(),
                |c: int|
                    if cell_indices.contains(c as usize) {
                        self.residents[c].push(self.membership.len() as usize)
                    } else {
                        self.residents[c]
                    },
            ),
            membership: self.membership.push(cell_indices),
            ..self
        }
    }

    /// With particle `p` registered in cell `c`.
    pub open spec fn entered(self, p: usize, c: usize) -> Snapshot<P> {
        Snapshot {
            residents: self.residents.update(c as int, self.residents[c as int].push(p)),
            membership: self.membership.update(p as int, self.membership[p as int].push(c)),
            ..self
        }
    }

    /// With particle `p` taken out of cell `c`, together with the events of `c` that
    /// refer to it.
    pub open spec fn left(self, p: usize, c: usize) -> Snapshot<P> {
        Snapshot {
            residents: self.residents.update(c as int, self.residents[c as int].remove_value(p)),
            membership: self.membership.update(
                p as int,
                self.membership[p as int].remove_value(c),
            ),
            ..self.cleared(p, c)
        }
    }

    /// Whether the lists have the lengths that go together, and each membership
    /// names cells of the grid, none twice.
    pub open spec fn sound(self) -> bool {
        &&& self.residents.len() == self.pending.len() <= usize::MAX
        &&& forall|p: int|
            0 <= p < self.membership.len() ==> (#[trigger] self.membership[p]).no_duplicates()
                && forall|k: int|
                0 <= k < self.membership[p].len() ==> (#[trigger] self.membership[p][k])
                    < self.pending.len()
    }

    /// The cell at the root of the heap: the one with the earliest event.
    pub open spec fn host(self) -> int {
        self.heap[0] as int
    }

    /// The fault that keeps the next event from being processed, if there is one:
    /// no event is pending, or the first event of the cell at the root of the heap
    /// would register its particle a second time.
    pub open spec fn fault(self) -> Option<Fault> {
        if self.pending[self.host()].len() == 0 {
            Some(Fault::NoEvent)
        } else {
            match self.pending[self.host()][0].eventtype {
                EventType::MoveToNeighbour(e) => if self.residents[e.new_cell_index as int].contains(
                    e.p_old,
                ) {
                    Some(Fault::AlreadyResident { particle: e.p_old, cell: e.new_cell_index })
                } else {
                    None
                },
                _ => None,
            }
        }
    }

    /// What an event of the given type leaves behind.
    pub open spec fn fired(self, eventtype: EventType) -> Snapshot<P> {
        match eventtype {
            EventType::InterParticleCollision(e) => self.cancelled(e.p_old).cancelled(e.q_old),
            EventType::MoveToNeighbour(e) => self.entered(e.p_old, e.new_cell_index),
            EventType::MoveOutOfCell(e) => self.left(e.p_old, e.cell),
            EventType::WallReflection(e) => self.cancelled(e.p_old),
            EventType::Synchronisation(_) => self,
        }
    }

    /// The predictions that are due once an event of the given type has fired and
    /// left this state behind.
    pub open spec fn requests(self, eventtype: EventType) -> Seq<Candidate> {
        match eventtype {
            EventType::InterParticleCollision(e) => rescheduled(
                self.residents,
                self.membership[e.p_old as int],
                e.p_old,
            ) + rescheduled(self.residents, self.membership[e.q_old as int], e.q_old),
            EventType::MoveToNeighbour(e) => candidates(
                self.residents[e.new_cell_index as int],
                e.new_cell_index,
                e.p_old,
            ),
            EventType::MoveOutOfCell(_) => Seq::empty(),
            EventType::WallReflection(e) => rescheduled(
                self.residents,
                self.membership[e.p_old as int],
                e.p_old,
            ),
            EventType::Synchronisation(e) => seq![Candidate::Synchronisation { cell: e.cell }],
        }
    }
}

/// Whether no event is pending in any cell.
pub open spec fn is_idle<P>(state: Snapshot<P>) -> bool {
    forall|c: int| 0 <= c < state.pending.len() ==> (#[trigger] state.pending[c]).len() == 0
}

/// Whether no pending event is earlier than `event`.
pub open spec fn is_earliest<P>(event: Event<P>, state: Snapshot<P>) -> bool {
    forall|c: int, i: int|
        0 <= c < state.pending.len() && 0 <= i < state.pending[c].len() ==> event.time <= (
        #[trigger] state.pending[c][i]).time
}

/// The collisions between the first `upto` residents of a cell and each resident
/// that stands behind them in the cell's list.
pub open spec fn pairs(residents: Seq<usize>, cell: usize, upto: int) -> Seq<Candidate>
    decreases upto,
{
    if upto <= 0 {
        Seq::empty()
    } else {
        pairs(residents, cell, upto - 1) + residents.skip(upto).map_values(
            collision_with(cell, residents[upto - 1]),
        )
    }
}

/// The crossings of the first `upto` residents of a cell.
pub open spec fn crossings_of(residents: Seq<usize>, cell: usize, upto: int) -> Seq<Candidate>
    decreases upto,
{
    if upto <= 0 {
        Seq::empty()
    } else {
        crossings_of(residents, cell, upto - 1) + crossings(cell, residents[upto - 1])
    }
}

/// Every prediction among the residents of one cell: each pair once, then the
/// crossings of each resident.
pub open spec fn opening_of(residents: Seq<usize>, cell: usize) -> Seq<Candidate> {
    pairs(residents, cell, residents.len() as int) + crossings_of(
        residents,
        cell,
        residents.len() as int,
    )
}

/// Every prediction in the first `upto` cells, cell after cell.
pub open spec fn opening<P>(cells: Seq<Cell<P>>, upto: int) -> Seq<Candidate>
    decreases upto,
{
    if upto <= 0 {
        Seq::empty()
    } else {
        opening(cells, upto - 1) + opening_of(cells[upto - 1].particles@, cells[upto - 1].index)
    }
}

/// Cells and heap that are relisted give the relisted snapshot.
pub proof fn lemma_relisted<P>(
    particles: Seq<Particle>,
    before: Seq<Cell<P>>,
    scheduler: Scheduler,
    after: Seq<Cell<P>>,
    mended: Scheduler,
    c: int,
    events: Seq<Event<P>>,
)
    requires
        0 <= c < before.len(),
        relisted(before, scheduler.heap(), after, mended.heap(), c, events),
    ensures
        snapshot(particles, after, mended) == snapshot(particles, before, scheduler).relisted(
            c,
            events,
        ),
{
    let state = snapshot(particles, before, scheduler);
    let pending = state.pending.update(c, events);
    assert forall|i: int| 0 <= i < before.len() implies (#[trigger] after[i]).events@
        == pending[i] && after[i].particles@ == before[i].particles@ by {
        assert(after[i].same_place(&before[i]));
    }
    assert(snapshot(particles, after, mended).pending =~= pending);
    assert(keys(after) =~= timetable(pending));
    assert(snapshot(particles, after, mended).residents =~= state.residents);
    assert(snapshot(particles, after, mended) =~~= state.relisted(c, events));
}

/// What is left after the events of particle `p` were cancelled in the first `upto`
/// cells of its membership: in those cells the events that spare `p`, in the others
/// every event.
pub proof fn lemma_cancelled_in<P>(state: Snapshot<P>, p: usize, upto: int)
    requires
        state.sound(),
        p < state.membership.len(),
        0 <= upto <= state.membership[p as int].len(),
    ensures
        state.cancelled_in(p, upto).residents == state.residents,
        state.cancelled_in(p, upto).membership == state.membership,
        state.cancelled_in(p, upto).pending.len() == state.pending.len(),
        forall|c: int|
            0 <= c < state.pending.len() ==> #[trigger] state.cancelled_in(p, upto).pending[c]
                == if state.membership[p as int].take(upto).contains(c as usize) {
                state.pending[c].filter(spares(p))
            } else {
                state.pending[c]
            },
    decreases upto,
{
    let membership = state.membership[p as int];
    if upto > 0 {
        lemma_cancelled_in(state, p, upto - 1);
        let previous = state.cancelled_in(p, upto - 1);
        let cell = membership[upto - 1];
        let front = membership.take(upto - 1);
        assert(membership.take(upto) =~= front.push(cell));
        assert(!front.contains(cell)) by {
            if front.contains(cell) {
                let i = choose|i: int| 0 <= i < front.len() && front[i] == cell;
                assert(membership[i] == membership[upto - 1]);
            }
        }
        assert(previous.pending[cell as int] == state.pending[cell as int]);
        assert forall|c: int| 0 <= c < state.pending.len() implies #[trigger] state.cancelled_in(
            p,
            upto,
        ).pending[c] == if membership.take(upto).contains(c as usize) {
            state.pending[c].filter(spares(p))
        } else {
            state.pending[c]
        } by {
            lemma_contains_push(front, cell, c as usize);
        }
    } else {
        assert(membership.take(0) =~= Seq::<usize>::empty());
    }
}

/// Where particles and cells are registered with each other and the events are
/// scheduled, cancelling the events of a particle in the cells of its membership
/// leaves in every cell the events that do not refer to it, and no others.
pub proof fn lemma_cancelled_everywhere<P>(
    particles: Seq<Particle>,
    cells: Seq<Cell<P>>,
    scheduler: Scheduler,
    p: usize,
    c: int,
)
    requires
        registered(particles, cells),
        scheduled(cells, scheduler),
        p < particles.len(),
        0 <= c < cells.len() <= usize::MAX,
    ensures
        snapshot(particles, cells, scheduler).cancelled(p).pending[c] == cells[c].events@.filter(
            spares(p),
        ),
{
    let state = snapshot(particles, cells, scheduler);
    lemma_sound(particles, cells, scheduler);
    let membership = state.membership[p as int];
    lemma_cancelled_in(state, p, membership.len() as int);
    assert(membership.take(membership.len() as int) =~= membership);
    if !membership.contains(c as usize) {
        let listed = cells[c].events@;
        assert forall|i: int| 0 <= i < listed.len() implies spares(p)(#[trigger] listed[i]) by {
            if listed[i].eventtype.involves(p) {
                lemma_hosted_involves(listed[i].eventtype, cells[c], cells.len() as int, p);
                assert(cells[c as usize as int].particles@.contains(p));
            }
        }
        lemma_filter_all(listed, spares(p));
    }
}

/// The snapshot of registered particles and cells is sound.
pub proof fn lemma_sound<P>(particles: Seq<Particle>, cells: Seq<Cell<P>>, scheduler: Scheduler)
    requires
        registered(particles, cells),
        cells.len() <= usize::MAX,
    ensures
        snapshot(particles, cells, scheduler).sound(),
{
    let state = snapshot(particles, cells, scheduler);
    assert forall|p: int| 0 <= p < state.membership.len() implies (
    #[trigger] state.membership[p]).no_duplicates() && forall|k: int|
        0 <= k < state.membership[p].len() ==> (#[trigger] state.membership[p][k])
            < state.pending.len() by {
        assert(particles[p].cells@.no_duplicates());
        assert forall|k: int| 0 <= k < state.membership[p].len() implies (
        #[trigger] state.membership[p][k]) < state.pending.len() by {
            assert(particles[p].cells@[k] < cells.len());
        }
    }
}

/// A barrier leaves the residents, the memberships and the pending events as they
/// are.
pub proof fn lemma_barrier_keeps_state<P>(state: Snapshot<P>, barrier: Synchronisation)
    ensures
        state.fired(EventType::Synchronisation(barrier)) == state,
{
}

/// The number of events not later than a time is at most the number of events.
pub proof fn lemma_not_later_bound<P>(events: Seq<Event<P>>, time: u64)
    ensures
        not_later(events, time) <= events.len(),
    decreases events.len(),
{
    if events.len() > 0 {
        lemma_not_later_bound(events.drop_last(), time);
    }
}

/// No event that is pending after an event has fired is earlier than that event,
/// where none was before.
pub proof fn lemma_later<P>(
    before: Snapshot<P>,
    after: Snapshot<P>,
    host: int,
    fired: Event<P>,
)
    requires
        before.sound(),
        0 <= host < before.pending.len(),
        0 < before.pending[host].len(),
        forall|p: usize| fired.eventtype.involves(p) ==> p < before.membership.len(),
        fired.eventtype matches EventType::MoveOutOfCell(e) ==> e.cell < before.pending.len(),
        after == before.popped(host).fired(fired.eventtype),
        forall|c: int, i: int|
            0 <= c < before.pending.len() && 0 <= i < before.pending[c].len() ==> fired.time <= (
            #[trigger] before.pending[c][i]).time,
    ensures
        after.pending.len() == before.pending.len(),
        forall|c: int, i: int|
            0 <= c < after.pending.len() && 0 <= i < after.pending[c].len() ==> fired.time <= (
            #[trigger] after.pending[c][i]).time,
{
    let popped = before.popped(host);
    assert(popped.pending[host] == before.pending[host].drop_first());
    assert forall|c: int, i: int|
        0 <= c < before.pending.len() && 0 <= i < popped.pending[c].len() implies fired.time <= (
    #[trigger] popped.pending[c][i]).time by {
        if c == host {
            assert(popped.pending[c][i] == before.pending[c][i + 1]);
        } else {
            assert(popped.pending[c][i] == before.pending[c][i]);
        }
    }
    lemma_fired_lengths(popped, fired.eventtype);
    assert forall|c: int, i: int|
        0 <= c < after.pending.len() && 0 <= i < after.pending[c].len() implies fired.time <= (
    #[trigger] after.pending[c][i]).time by {
        lemma_fired_subset(popped, fired.eventtype, c, i);
        let j = choose|j: int|
            0 <= j < popped.pending[c].len() && popped.pending[c][j] == after.pending[c][i];
        assert(fired.time <= popped.pending[c][j].time);
    }
}

/// An event that fires leaves the number of cells and the memberships' soundness as
/// they are, unless it registers or forgets a particle.
pub proof fn lemma_fired_lengths<P>(state: Snapshot<P>, eventtype: EventType)
    requires
        state.sound(),
        forall|p: usize| eventtype.involves(p) ==> p < state.membership.len(),
        eventtype matches EventType::MoveOutOfCell(e) ==> e.cell < state.pending.len(),
    ensures
        state.fired(eventtype).pending.len() == state.pending.len(),
{
    match eventtype {
        EventType::InterParticleCollision(e) => {
            assert(eventtype.involves(e.p_old) && eventtype.involves(e.q_old));
            lemma_cancelled_in(state, e.p_old, state.membership[e.p_old as int].len() as int);
            let first = state.cancelled(e.p_old);
            lemma_cancelled_in(first, e.q_old, first.membership[e.q_old as int].len() as int);
        },
        EventType::MoveToNeighbour(e) => {},
        EventType::MoveOutOfCell(e) => {},
        EventType::WallReflection(e) => {
            assert(eventtype.involves(e.p_old));
            lemma_cancelled_in(state, e.p_old, state.membership[e.p_old as int].len() as int);
        },
        EventType::Synchronisation(_) => {},
    }
}

/// Every event that is pending after an event has fired was pending in the same cell
/// before it.
pub proof fn lemma_fired_subset<P>(
    state: Snapshot<P>,
    eventtype: EventType,
    c: int,
    i: int,
)
    requires
        state.sound(),
        forall|p: usize| eventtype.involves(p) ==> p < state.membership.len(),
        eventtype matches EventType::MoveOutOfCell(e) ==> e.cell < state.pending.len(),
        0 <= c < state.pending.len(),
        0 <= i < state.fired(eventtype).pending[c].len(),
    ensures
        state.pending[c].contains(state.fired(eventtype).pending[c][i]),
{
    let listed = state.pending[c];
    match eventtype {
        EventType::InterParticleCollision(e) => {
            assert(eventtype.involves(e.p_old) && eventtype.involves(e.q_old));
            lemma_cancelled_in(state, e.p_old, state.membership[e.p_old as int].len() as int);
            let first = state.cancelled(e.p_old);
            lemma_cancelled_in(first, e.q_old, first.membership[e.q_old as int].len() as int);
            let second = first.cancelled(e.q_old);
            assert(state.fired(eventtype) == second);
            let between = first.pending[c];
            if second.pending[c] == between.filter(spares(e.q_old)) {
                lemma_filtered_subset(between, spares(e.q_old), i);
            } else {
                assert(second.pending[c][i] == between[i]);
            }
            let j = choose|j: int| 0 <= j < between.len() && between[j] == second.pending[c][i];
            if between == listed.filter(spares(e.p_old)) {
                lemma_filtered_subset(listed, spares(e.p_old), j);
            } else {
                assert(between[j] == listed[j]);
            }
        },
        EventType::MoveToNeighbour(e) => {
            assert(state.fired(eventtype).pending == state.pending);
            assert(state.fired(eventtype).pending[c][i] == listed[i]);
        },
        EventType::MoveOutOfCell(e) => {
            if c == e.cell {
                assert(state.fired(eventtype).pending[c] == listed.filter(spares(e.p_old)));
                lemma_filtered_subset(listed, spares(e.p_old), i);
            } else {
                assert(state.fired(eventtype).pending[c][i] == listed[i]);
            }
        },
        EventType::WallReflection(e) => {
            assert(eventtype.involves(e.p_old));
            lemma_cancelled_in(state, e.p_old, state.membership[e.p_old as int].len() as int);
            let after = state.cancelled(e.p_old);
            if after.pending[c] == listed.filter(spares(e.p_old)) {
                lemma_filtered_subset(listed, spares(e.p_old), i);
            } else {
                assert(after.pending[c][i] == listed[i]);
            }
        },
        EventType::Synchronisation(_) => {
            assert(state.fired(eventtype).pending[c][i] == listed[i]);
        },
    }
}

} // verus!
