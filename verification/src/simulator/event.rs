//! The event taxonomy and the per-cell event lists.

pub mod inter_particle_collision;
pub mod move_out_of_cell;
pub mod move_to_neighbour;
pub mod synchronisation;
pub mod wall_reflection;

use vstd::prelude::*;
use crate::simulator::cell::{events_replaced, same_grid, Cell};
use crate::simulator::debug::registered;
use crate::simulator::particle::{find, Particle};
use crate::simulator::scheduler::{keys, repaired, Scheduler};
use crate::simulator::state::{
    is_earliest, is_idle, candidates, collision_with, crossings, crossings_of, lemma_relisted, opening, other_than, pairs, residents_of, rescheduled, rivals, rounds, snapshot,
};
use crate::simulator::util::lemma_filtered_subset;
use crate::simulator::NDIMS;
use crate::simulator::event::inter_particle_collision::InterParticleCollision;
use crate::simulator::event::move_out_of_cell::MoveOutOfCell;
use crate::simulator::event::move_to_neighbour::MoveToNeighbour;
use crate::simulator::event::synchronisation::Synchronisation;
use crate::simulator::event::wall_reflection::WallReflection;

verus! {

/// Key of a cell without pending events: later than every event.
pub const NO_EVENT: u64 = u64::MAX;

/// What an event is about.
#[derive(Debug, PartialEq, Eq, Clone, Copy)]
pub enum EventType {
    InterParticleCollision(InterParticleCollision),
    MoveToNeighbour(MoveToNeighbour),
    MoveOutOfCell(MoveOutOfCell),
    WallReflection(WallReflection),
    Synchronisation(Synchronisation),
}

/// A predicted change at an absolute time, together with what it predicts.
#[derive(Debug, PartialEq, Eq, Clone, Copy)]
pub struct Event<P> {
    /// Key of the time at which the event fires.
    pub time: u64,
    pub eventtype: EventType,
    /// The state predicted for the particles involved.
    pub prediction: P,
}

impl EventType {
    /// Whether the event refers to particle `p`.
    pub open spec fn involves(self, p: usize) -> bool {
        match self {
            EventType::InterParticleCollision(e) => e.p_old == p || e.q_old == p,
            EventType::MoveToNeighbour(e) => e.p_old == p,
            EventType::MoveOutOfCell(e) => e.p_old == p,
            EventType::WallReflection(e) => e.p_old == p,
            EventType::Synchronisation(_) => false,
        }
    }

    /// Whether the event may stand in the list of `host`, a cell of a grid of `ncells` cells.
    pub open spec fn hosted_by<P>(self, host: Cell<P>, ncells: int) -> bool {
        match self {
            EventType::InterParticleCollision(e) => host.particles@.contains(e.p_old)
                && host.particles@.contains(e.q_old),
            EventType::MoveToNeighbour(e) => host.particles@.contains(e.p_old)
                && e.new_cell_index < ncells,
            EventType::MoveOutOfCell(e) => host.particles@.contains(e.p_old) && e.cell
                == host.index,
            EventType::WallReflection(e) => host.particles@.contains(e.p_old),
            EventType::Synchronisation(e) => e.cell == host.index,
        }
    }

    /// Executable form of `hosted_by`.
    pub fn is_hosted_by<P>(&self, host: &Cell<P>, ncells: usize) -> (b: bool)
        ensures
            b == self.hosted_by(*host, ncells as int),
    {
        match self {
            EventType::InterParticleCollision(e) => find(&host.particles, e.p_old).is_some()
                && find(&host.particles, e.q_old).is_some(),
            EventType::MoveToNeighbour(e) => find(&host.particles, e.p_old).is_some()
                && e.new_cell_index < ncells,
            EventType::MoveOutOfCell(e) => find(&host.particles, e.p_old).is_some() && e.cell
                == host.index,
            EventType::WallReflection(e) => find(&host.particles, e.p_old).is_some(),
            EventType::Synchronisation(e) => e.cell == host.index,
        }
    }

    /// Executable form of `involves`.
    pub fn refers_to(&self, p: usize) -> (b: bool)
        ensures
            b == self.involves(p),
    {
        match self {
            EventType::InterParticleCollision(e) => e.p_old == p || e.q_old == p,
            EventType::MoveToNeighbour(e) => e.p_old == p,
            EventType::MoveOutOfCell(e) => e.p_old == p,
            EventType::WallReflection(e) => e.p_old == p,
            EventType::Synchronisation(_) => false,
        }
    }
}

/// A prediction that is to be worked out for the given cell and, where it yields an
/// event, inserted into that cell's list.
#[derive(Debug, PartialEq, Eq, Clone, Copy)]
pub enum Candidate {
    InterParticleCollision { cell: usize, p: usize, q: usize },
    MoveToNeighbour { cell: usize, dim: usize, p: usize },
    MoveOutOfCell { cell: usize, dim: usize, p: usize },
    WallReflection { cell: usize, dim: usize, p: usize },
    Synchronisation { cell: usize },
}

/// Why the next event could not be processed.
#[derive(Debug, PartialEq, Eq, Clone, Copy)]
pub enum Fault {
    /// No event is pending in any cell.
    NoEvent,
    /// The next event would register the particle in a cell that holds it already.
    AlreadyResident { particle: usize, cell: usize },
}

/// The time of the first event of a list, `NO_EVENT` for an empty list.
pub open spec fn head_time<P>(events: Seq<Event<P>>) -> u64 {
    if events.len() == 0 {
        NO_EVENT
    } else {
        events[0].time
    }
}

/// Whether the times of a list never decrease.
pub open spec fn sorted<P>(events: Seq<Event<P>>) -> bool {
    forall|i: int, j: int| 0 <= i <= j < events.len() ==> events[i].time <= events[j].time
}

/// Returns the time of the first event of a list, `NO_EVENT` for an empty list.
pub fn get_head_event_time<P>(events: &Vec<Event<P>>) -> (time: u64)
    ensures
        time == head_time(events@),
{
    if events.is_empty() {
        NO_EVENT
    } else {
        events[0].time
    }
}

/// The number of events of a list that are not later than `time`.
pub open spec fn not_later<P>(events: Seq<Event<P>>, time: u64) -> nat
    decreases events.len(),
{
    if events.len() == 0 {
        0
    } else {
        not_later(events.drop_last(), time) + if events.last().time <= time {
            1nat
        } else {
            0nat
        }
    }
}

/// In a sorted list the events not later than `time` are the first `k`, where the
/// event at `k`, if any, is the first later one.
pub proof fn lemma_not_later<P>(events: Seq<Event<P>>, time: u64, k: int)
    requires
        0 <= k <= events.len(),
        forall|i: int| 0 <= i < k ==> events[i].time <= time,
        forall|i: int| k <= i < events.len() ==> time < events[i].time,
    ensures
        not_later(events, time) == k,
    decreases events.len(),
{
    if events.len() > 0 {
        let front = events.drop_last();
        if k == events.len() {
            lemma_not_later(front, time, k - 1);
        } else {
            lemma_not_later(front, time, k);
        }
    }
}

/// Whether cells and heap are as before but for the list of cell `c`, which is now
/// `events`, and for the heap, which is repaired for the new head time of `c`.
pub open spec fn relisted<P>(
    before: Seq<Cell<P>>,
    heap: Seq<usize>,
    after: Seq<Cell<P>>,
    mended: Seq<usize>,
    c: int,
    events: Seq<Event<P>>,
) -> bool {
    &&& events_replaced(before, after, c, events)
    &&& mended == repaired(
        heap,
        keys(after),
        heap.index_of(c as usize),
        head_time(before[c].events@),
    )
}

/// Whether the heap and the event lists fit together: each list is sorted, each
/// event is earlier than `NO_EVENT` and stands in a cell that may host it, and the
/// heap is in order for the times of the first events.
pub open spec fn scheduled<P>(cells: Seq<Cell<P>>, scheduler: Scheduler) -> bool {
    &&& scheduler.wf()
    &&& scheduler.ordered(keys(cells))
    &&& forall|c: int| 0 <= c < cells.len() ==> sorted((#[trigger] cells[c]).events@)
    &&& forall|c: int, i: int|
        0 <= c < cells.len() && 0 <= i < cells[c].events.len() ==> (#[trigger] cells[c].events@[i]).time
            < NO_EVENT
    &&& forall|c: int, i: int|
        0 <= c < cells.len() && 0 <= i < cells[c].events.len() ==> (
        #[trigger] cells[c].events@[i]).eventtype.hosted_by(cells[c], cells.len() as int)
}

/// Inserts a new event into the list of the given cell, behind every pending
/// event that is not later than it, and repairs the heap.
pub fn insert_event<P>(
    new_event: Event<P>,
    cell_index: usize,
    cells: &mut Vec<Cell<P>>,
    scheduler: &mut Scheduler,
)
    requires
        scheduled(old(cells)@, *old(scheduler)),
        cell_index < old(cells).len(),
        new_event.eventtype.hosted_by(old(cells)[cell_index as int], old(cells).len() as int),
        new_event.time < NO_EVENT,
    ensures
        scheduled(final(cells)@, *final(scheduler)),
        relisted(
            old(cells)@,
            old(scheduler).heap(),
            final(cells)@,
            final(scheduler).heap(),
            cell_index as int,
            old(cells)[cell_index as int].events@.insert(
                not_later(old(cells)[cell_index as int].events@, new_event.time) as int,
                new_event,
            ),
        ),
{
    let ghost before = cells@;
    let ghost pending = cells[cell_index as int].events@;
    let time: u64 = new_event.time;
    let time_bef: u64 = get_head_event_time(&cells[cell_index].events);
    let mut low: usize = 0;
    let mut high: usize = cells[cell_index].events.len();
    while low < high
        invariant
            cells@ == before,
            cell_index < cells.len(),
            sorted(pending),
            pending == cells[cell_index as int].events@,
            low <= high <= pending.len(),
            forall|i: int| 0 <= i < low ==> pending[i].time <= time,
            forall|i: int| high <= i < pending.len() ==> time < pending[i].time,
        decreases high - low,
    {
        let middle: usize = low + (high - low) / 2;
        if cells[cell_index].events[middle].time <= time {
            low = middle + 1;
        } else {
            high = middle;
        }
    }
    proof {
        lemma_not_later(pending, time, low as int);
    }
    cells[cell_index].events.insert(low, new_event);
    let time_aft: u64 = get_head_event_time(&cells[cell_index].events);
    proof {
        let listed = pending.insert(low as int, new_event);
        assert(cells[cell_index as int].events@ == listed);
        assert(events_replaced(before, cells@, cell_index as int, listed));
        assert(keys(cells@).update(cell_index as int, time_bef) =~= keys(before));
        assert(sorted(listed));
    }
    scheduler.update(cells, cell_index, time_bef, time_aft);
    proof {
        let listed = pending.insert(low as int, new_event);
        assert forall|c: int, i: int|
            0 <= c < cells.len() && 0 <= i < cells[c].events.len() implies (
        #[trigger] cells[c].events@[i]).eventtype.hosted_by(cells[c], cells.len() as int) by {
            lemma_hosting_kept(before[c], cells[c], before.len() as int);
            if c == cell_index {
                if i < low {
                    assert(listed[i] == pending[i]);
                } else if i > low {
                    assert(listed[i] == pending[i - 1]);
                }
            } else {
                assert(cells[c].events@[i] == before[c].events@[i]);
            }
        }
    }
}

/// The test that an event passes when it does not refer to particle `p`.
pub open spec fn spares<P>(p: usize) -> spec_fn(Event<P>) -> bool {
    |event: Event<P>| !event.eventtype.involves(p)
}

/// Keeps the events that do not refer to particle `p`, in their order.
fn retain_sparing<P>(events: &mut Vec<Event<P>>, p: usize)
    ensures
        final(events)@ == old(events)@.filter(spares(p)),
{
    let ghost pending = events@;
    // the events to keep, last first
    let mut rest: Vec<Event<P>> = Vec::new();
    proof {
        assert(pending.skip(pending.len() as int).filter(spares(p)) =~= Seq::<Event<P>>::empty())
            by {
            reveal(Seq::filter);
        }
    }
    while events.len() > 0
        invariant
            events@ == pending.take(events.len() as int),
            events.len() <= pending.len(),
            rest.len() == pending.skip(events.len() as int).filter(spares(p)).len(),
            forall|i: int|
                0 <= i < rest.len() ==> #[trigger] rest[i] == pending.skip(
                    events.len() as int,
                ).filter(spares(p))[rest.len() - 1 - i],
        decreases events.len(),
    {
        let ghost behind = pending.skip(events.len() as int);
        let ghost kept = behind.filter(spares(p));
        let event: Event<P> = events.pop().unwrap();
        proof {
            let one = seq![event];
            assert(pending.skip(events.len() as int) =~= one + behind);
            Seq::filter_distributes_over_add(one, behind, spares(p));
            Seq::<Event<P>>::empty().lemma_filter_push(event, spares(p));
            assert(Seq::<Event<P>>::empty().push(event) =~= one);
            assert(Seq::<Event<P>>::empty().filter(spares(p)) =~= Seq::<Event<P>>::empty()) by {
                reveal(Seq::filter);
            }
            assert(events@ =~= pending.take(events.len() as int));
        }
        if !event.eventtype.refers_to(p) {
            rest.push(event);
            proof {
                let longer = pending.skip(events.len() as int).filter(spares(p));
                assert(longer =~= seq![event] + kept);
                assert forall|i: int| 0 <= i < rest.len() implies #[trigger] rest[i]
                    == longer[rest.len() - 1 - i] by {
                    if i < rest.len() - 1 {
                        assert(longer[rest.len() - 1 - i] == kept[rest.len() - 2 - i]);
                    }
                }
            }
        } else {
            proof {
                assert(pending.skip(events.len() as int).filter(spares(p)) =~= kept);
            }
        }
    }
    let ghost kept = pending.filter(spares(p));
    assert(pending.skip(0) =~= pending);
    assert(events@ =~= kept.take(0));
    while rest.len() > 0
        invariant
            events.len() + rest.len() == kept.len(),
            events@ == kept.take(events.len() as int),
            forall|i: int| 0 <= i < rest.len() ==> #[trigger] rest[i] == kept[kept.len() - 1 - i],
        decreases rest.len(),
    {
        let event: Event<P> = rest.pop().unwrap();
        events.push(event);
        assert(events@ =~= kept.take(events.len() as int));
    }
    assert(events@ =~= kept);
}

/// A filter keeps a sorted list sorted.
pub proof fn lemma_filter_sorted<P>(events: Seq<Event<P>>, pred: spec_fn(Event<P>) -> bool)
    requires
        sorted(events),
    ensures
        sorted(events.filter(pred)),
    decreases events.len(),
{
    reveal(Seq::filter);
    if events.len() > 0 {
        let front = events.drop_last();
        lemma_filter_sorted(front, pred);
        let kept = front.filter(pred);
        if pred(events.last()) {
            assert forall|i: int, j: int| 0 <= i <= j < kept.len() + 1 implies kept.push(
                events.last(),
            )[i].time <= kept.push(events.last())[j].time by {
                if j == kept.len() && i < kept.len() {
                    lemma_filtered_subset(front, pred, i);
                    let k = choose|k: int| 0 <= k < front.len() && front[k] == kept[i];
                    assert(events[k].time <= events[events.len() - 1].time);
                }
            }
        }
    }
}

/// Cancels all events of the given cell which involve the specified particle, keeps
/// the others in their order, and repairs the heap.
pub fn cancel_events<P>(
    p: usize,
    cell_index: usize,
    cells: &mut Vec<Cell<P>>,
    scheduler: &mut Scheduler,
)
    requires
        scheduled(old(cells)@, *old(scheduler)),
        cell_index < old(cells).len(),
    ensures
        scheduled(final(cells)@, *final(scheduler)),
        relisted(
            old(cells)@,
            old(scheduler).heap(),
            final(cells)@,
            final(scheduler).heap(),
            cell_index as int,
            old(cells)[cell_index as int].events@.filter(spares(p)),
        ),
{
    let ghost before = cells@;
    let ghost pending = cells[cell_index as int].events@;
    // get the head event before the event list is modified
    let time_bef: u64 = get_head_event_time(&cells[cell_index].events);
    // only keep events which do not involve p
    retain_sparing(&mut cells[cell_index].events, p);
    // get the head event after the event list is modified
    let time_aft: u64 = get_head_event_time(&cells[cell_index].events);
    proof {
        let kept = pending.filter(spares(p));
        assert(events_replaced(before, cells@, cell_index as int, kept));
        assert(keys(cells@).update(cell_index as int, time_bef) =~= keys(before));
    }
    // update heap
    scheduler.update(cells, cell_index, time_bef, time_aft);
    proof {
        let kept = pending.filter(spares(p));
        lemma_filter_sorted(pending, spares(p));
        assert forall|c: int| 0 <= c < cells.len() implies sorted((#[trigger] cells[c]).events@) by {
            assert(sorted(before[c].events@));
        }
        assert forall|c: int, i: int|
            0 <= c < cells.len() && 0 <= i < cells[c].events.len() implies (
        #[trigger] cells[c].events@[i]).eventtype.hosted_by(cells[c], cells.len() as int)
            && cells[c].events@[i].time < NO_EVENT by {
            lemma_hosting_kept(before[c], cells[c], before.len() as int);
            if c != cell_index {
                assert(cells[c].events@[i] == before[c].events@[i]);
            } else {
                lemma_filtered_subset(pending, spares(p), i);
                let k = choose|k: int| 0 <= k < pending.len() && pending[k] == kept[i];
                assert(before[c].events@[k].time < NO_EVENT);
            }
        }
    }
}

/// Lists the predictions that involve particle `p` in the given cell: the collision
/// with each other resident, then for each kind of crossing one per axis.
pub fn schedule_events<P>(p: usize, cell: &Cell<P>) -> (requests: Vec<Candidate>)
    ensures
        requests@ == candidates(cell.particles@, cell.index, p),
{
    let mut requests: Vec<Candidate> = Vec::new();
    append_candidates(p, cell, &mut requests);
    requests
}

/// Puts the predictions that involve particle `p` in the given cell behind `requests`.
fn append_candidates<P>(p: usize, cell: &Cell<P>, requests: &mut Vec<Candidate>)
    ensures
        final(requests)@ == old(requests)@ + candidates(cell.particles@, cell.index, p),
{
    let ghost first = requests@;
    let ghost residents = cell.particles@;
    let index: usize = cell.index;
    let mut n: usize = 0;
    proof {
        assert(residents.take(0).filter(other_than(p)) =~= Seq::<usize>::empty()) by {
            reveal(Seq::filter);
        }
        assert(first + rivals(residents.take(0), index, p) =~= first);
    }
    while n < cell.particles.len()
        invariant
            n <= cell.particles.len(),
            residents == cell.particles@,
            requests@ == first + rivals(residents.take(n as int), index, p),
        decreases cell.particles.len() - n,
    {
        let q: usize = cell.particles[n];
        proof {
            let front = residents.take(n as int);
            residents.lemma_take_succ_push(n as int);
            front.lemma_filter_push(q, other_than(p));
            front.filter(other_than(p)).lemma_push_map_commute(collision_with(index, p), q);
            assert(rivals(front.push(q), index, p) =~= if q != p {
                rivals(front, index, p).push(Candidate::InterParticleCollision { cell: index, p, q })
            } else {
                rivals(front, index, p)
            });
        }
        if q != p {
            requests.push(Candidate::InterParticleCollision { cell: index, p, q });
        }
        n += 1;
    }
    assert(residents.take(n as int) =~= residents);
    append_crossings(p, index, requests);
    assert(requests@ =~= first + candidates(residents, index, p));
}

/// Puts the crossings of particle `p` at the bounds of the given cell behind `requests`.
fn append_crossings(p: usize, index: usize, requests: &mut Vec<Candidate>)
    ensures
        final(requests)@ == old(requests)@ + crossings(index, p),
{
    let ghost collisions = requests@;
    let mut dim: usize = 0;
    while dim < NDIMS
        invariant
            dim <= NDIMS,
            requests@ == collisions + Seq::new(
                dim as nat,
                |dim: int| Candidate::MoveToNeighbour { cell: index, dim: dim as usize, p },
            ),
        decreases NDIMS - dim,
    {
        requests.push(Candidate::MoveToNeighbour { cell: index, dim, p });
        dim += 1;
    }
    let ghost entries = requests@;
    let mut dim: usize = 0;
    while dim < NDIMS
        invariant
            dim <= NDIMS,
            requests@ == entries + Seq::new(
                dim as nat,
                |dim: int| Candidate::MoveOutOfCell { cell: index, dim: dim as usize, p },
            ),
        decreases NDIMS - dim,
    {
        requests.push(Candidate::MoveOutOfCell { cell: index, dim, p });
        dim += 1;
    }
    let ghost exits = requests@;
    let mut dim: usize = 0;
    while dim < NDIMS
        invariant
            dim <= NDIMS,
            requests@ == exits + Seq::new(
                dim as nat,
                |dim: int| Candidate::WallReflection { cell: index, dim: dim as usize, p },
            ),
        decreases NDIMS - dim,
    {
        requests.push(Candidate::WallReflection { cell: index, dim, p });
        dim += 1;
    }
    assert(requests@ =~= old(requests)@ + crossings(index, p));
}

/// Puts the first barrier, at `time`, into the list of the first cell, and lists for
/// each cell the predictions that are due among its residents.
pub fn init_events<P>(
    time: u64,
    prediction: P,
    cells: &mut Vec<Cell<P>>,
    scheduler: &mut Scheduler,
) -> (requests: Vec<Candidate>)
    requires
        scheduled(old(cells)@, *old(scheduler)),
        0 < old(cells).len(),
        time < NO_EVENT,
    ensures
        scheduled(final(cells)@, *final(scheduler)),
        relisted(
            old(cells)@,
            old(scheduler).heap(),
            final(cells)@,
            final(scheduler).heap(),
            0,
            old(cells)[0].events@.insert(
                not_later(old(cells)[0].events@, time) as int,
                Event {
                    time,
                    eventtype: EventType::Synchronisation(
                        Synchronisation { cell: old(cells)[0].index },
                    ),
                    prediction,
                },
            ),
        ),
        requests@ == opening(final(cells)@, final(cells).len() as int),
{
    let barrier: Event<P> = Synchronisation::schedule(time, cells[0].index, prediction);
    insert_event(barrier, 0, cells, scheduler);
    let mut requests: Vec<Candidate> = Vec::new();
    let mut c: usize = 0;
    while c < cells.len()
        invariant
            c <= cells.len(),
            requests@ == opening(cells@, c as int),
        decreases cells.len() - c,
    {
        let ghost first = requests@;
        let ghost residents = cells[c as int].particles@;
        let index: usize = cells[c].index;
        let mut n: usize = 0;
        assert(first + pairs(residents, index, 0) =~= first);
        while n < cells[c].particles.len()
            invariant
                c < cells.len(),
                residents == cells[c as int].particles@,
                index == cells[c as int].index,
                n <= residents.len(),
                requests@ == first + pairs(residents, index, n as int),
            decreases residents.len() - n,
        {
            let p: usize = cells[c].particles[n];
            let ghost paired = requests@;
            let mut m: usize = n + 1;
            assert(residents.skip(n + 1).take(0).map_values(collision_with(index, p)) =~= Seq::<
                Candidate,
            >::empty());
            while m < cells[c].particles.len()
                invariant
                    c < cells.len(),
                    residents == cells[c as int].particles@,
                    n < m <= residents.len(),
                    requests@ == paired + residents.skip(n + 1).take(m - n - 1).map_values(
                        collision_with(index, p),
                    ),
                decreases residents.len() - m,
            {
                let q: usize = cells[c].particles[m];
                requests.push(Candidate::InterParticleCollision { cell: index, p, q });
                m += 1;
                assert(requests@ =~= paired + residents.skip(n + 1).take(m - n - 1).map_values(
                    collision_with(index, p),
                ));
            }
            assert(residents.skip(n + 1).take(m - n - 1) =~= residents.skip(n + 1));
            n += 1;
            assert(requests@ =~= first + pairs(residents, index, n as int));
        }
        let ghost collisions = requests@;
        let mut n: usize = 0;
        assert(collisions + crossings_of(residents, index, 0) =~= collisions);
        while n < cells[c].particles.len()
            invariant
                c < cells.len(),
                residents == cells[c as int].particles@,
                n <= residents.len(),
                requests@ == collisions + crossings_of(residents, index, n as int),
            decreases residents.len() - n,
        {
            append_crossings(cells[c].particles[n], index, &mut requests);
            n += 1;
            assert(requests@ =~= collisions + crossings_of(residents, index, n as int));
        }
        c += 1;
        assert(requests@ =~= opening(cells@, c as int));
    }
    requests
}

/// Cancels the events that involve particle `p` in every cell of its membership.
pub fn cancel_everywhere<P>(
    p: usize,
    particles: &Vec<Particle>,
    cells: &mut Vec<Cell<P>>,
    scheduler: &mut Scheduler,
)
    requires
        registered(particles@, old(cells)@),
        scheduled(old(cells)@, *old(scheduler)),
        p < particles.len(),
    ensures
        registered(particles@, final(cells)@),
        scheduled(final(cells)@, *final(scheduler)),
        same_grid(old(cells)@, final(cells)@),
        snapshot(particles@, final(cells)@, *final(scheduler)) == snapshot(
            particles@,
            old(cells)@,
            *old(scheduler),
        ).cancelled(p),
{
    let ghost before = cells@;
    let ghost state = snapshot(particles@, cells@, *scheduler);
    let mut k: usize = 0;
    while k < particles[p].cells.len()
        invariant
            p < particles.len(),
            k <= particles[p as int].cells.len(),
            state.membership[p as int] == particles[p as int].cells@,
            registered(particles@, cells@),
            scheduled(cells@, *scheduler),
            same_grid(before, cells@),
            snapshot(particles@, cells@, *scheduler) == state.cancelled_in(p, k as int),
        decreases particles[p as int].cells.len() - k,
    {
        let cell_index: usize = particles[p].cells[k];
        let ghost previous = cells@;
        let ghost unmended = *scheduler;
        assert(cell_index < cells.len());
        cancel_events(p, cell_index, cells, scheduler);
        proof {
            lemma_relisted(
                particles@,
                previous,
                unmended,
                cells@,
                *scheduler,
                cell_index as int,
                previous[cell_index as int].events@.filter(spares(p)),
            );
            lemma_replaced_keeps(particles@, previous, cells@, cell_index as int);
            assert(same_grid(before, cells@)) by {
                assert forall|i: int| 0 <= i < before.len() implies (#[trigger] cells@[i]).index
                    == before[i].index && cells@[i].positions == before[i].positions
                    && cells@[i].neighbours == before[i].neighbours by {
                    assert(cells@[i].same_place(&previous[i]));
                    assert(previous[i].index == before[i].index);
                }
            }
        }
        k += 1;
    }
}

/// Cells of which one got another list of events are registered as before, and are
/// the same grid.
pub proof fn lemma_replaced_keeps<P>(
    particles: Seq<Particle>,
    before: Seq<Cell<P>>,
    after: Seq<Cell<P>>,
    c: int,
)
    requires
        registered(particles, before),
        events_replaced(before, after, c, after[c].events@),
    ensures
        registered(particles, after),
        same_grid(before, after),
{
    assert forall|i: int| 0 <= i < before.len() implies (#[trigger] after[i]).index
        == before[i].index && after[i].particles@ == before[i].particles@ && after[i].positions
        == before[i].positions && after[i].neighbours == before[i].neighbours by {
        assert(after[i].same_place(&before[i]));
    }
    lemma_registered_kept(particles, before, after);
}

/// Puts the predictions that involve particle `p`, in each cell of its membership,
/// behind `requests`.
pub fn reschedule<P>(
    p: usize,
    particles: &Vec<Particle>,
    cells: &Vec<Cell<P>>,
    requests: &mut Vec<Candidate>,
)
    requires
        registered(particles@, cells@),
        p < particles.len(),
    ensures
        final(requests)@ == old(requests)@ + rescheduled(
            residents_of(cells@),
            particles[p as int].cells@,
            p,
        ),
{
    let ghost first = requests@;
    let ghost residents = residents_of(cells@);
    let ghost membership = particles[p as int].cells@;
    let mut k: usize = 0;
    assert(first + rounds(residents, membership, p, 0) =~= first);
    while k < particles[p].cells.len()
        invariant
            p < particles.len(),
            registered(particles@, cells@),
            residents == residents_of(cells@),
            membership == particles[p as int].cells@,
            k <= membership.len(),
            requests@ == first + rounds(residents, membership, p, k as int),
        decreases particles[p as int].cells.len() - k,
    {
        let cell_index: usize = particles[p].cells[k];
        assert(cell_index == membership[k as int]);
        assert(cells[cell_index as int].index == cell_index);
        append_candidates(p, &cells[cell_index], requests);
        k += 1;
        assert(requests@ =~= first + rounds(residents, membership, p, k as int));
    }
}

/// Processes the next event: takes the earliest pending event out of its cell,
/// repairs the heap, registers or forgets the particle where the event says so and
/// cancels the events that it outdates. Returns the event together with the
/// predictions that are due after it.
pub fn process_events<P>(
    particles: &mut Vec<Particle>,
    cells: &mut Vec<Cell<P>>,
    scheduler: &mut Scheduler,
) -> (turn: Result<(Event<P>, Vec<Candidate>), Fault>)
    requires
        registered(old(particles)@, old(cells)@),
        scheduled(old(cells)@, *old(scheduler)),
        0 < old(cells).len(),
    ensures
        registered(final(particles)@, final(cells)@),
        scheduled(final(cells)@, *final(scheduler)),
        same_grid(old(cells)@, final(cells)@),
        turn matches Err(Fault::NoEvent) ==> is_idle(
            snapshot(old(particles)@, old(cells)@, *old(scheduler)),
        ),
        match snapshot(old(particles)@, old(cells)@, *old(scheduler)).fault() {
            Some(f) => {
                &&& turn matches Err(g) && g == f
                &&& *final(particles) == *old(particles)
                &&& *final(cells) == *old(cells)
                &&& *final(scheduler) == *old(scheduler)
            },
            None => {
                &&& turn matches Ok((event, requests))
                &&& event == old(cells)[old(scheduler).heap()[0] as int].events@[0]
                &&& is_earliest(event, snapshot(old(particles)@, old(cells)@, *old(scheduler)))
                &&& snapshot(final(particles)@, final(cells)@, *final(scheduler)) == snapshot(
                    old(particles)@,
                    old(cells)@,
                    *old(scheduler),
                ).popped(old(scheduler).heap()[0] as int).fired(event.eventtype)
                &&& requests@ == snapshot(
                    final(particles)@,
                    final(cells)@,
                    *final(scheduler),
                ).requests(event.eventtype)
            },
        },
{
    let ghost before = cells@;
    let ghost state = snapshot(particles@, cells@, *scheduler);
    let host: usize = scheduler.get(cells);
    assert(state.host() == host);
    if cells[host].events.is_empty() {
        proof {
            assert forall|c: int| 0 <= c < state.pending.len() implies (
            #[trigger] state.pending[c]).len() == 0 by {
                if before[c].events.len() > 0 {
                    assert(before[c].events@[0].time < NO_EVENT);
                }
            }
        }
        return Err(Fault::NoEvent);
    }
    let eventtype: EventType = cells[host].events[0].eventtype;
    assert(eventtype.hosted_by(before[host as int], before.len() as int));
    match eventtype {
        EventType::MoveToNeighbour(e) => {
            if find(&cells[e.new_cell_index].particles, e.p_old).is_some() {
                return Err(Fault::AlreadyResident { particle: e.p_old, cell: e.new_cell_index });
            }
        },
        _ => {},
    }
    proof {
        assert forall|c: int, i: int|
            0 <= c < state.pending.len() && 0 <= i < state.pending[c].len() implies before[host
            as int].events@[0].time <= (#[trigger] state.pending[c][i]).time by {
            assert(sorted(before[c].events@));
            assert(before[c].events@[0].time <= before[c].events@[i].time);
        }
    }
    let ghost unmended = *scheduler;
    let event: Event<P> = pop_event(host, cells, scheduler);
    proof {
        let popped = cells@;
        lemma_replaced_keeps(particles@, before, popped, host as int);
        lemma_relisted(
            particles@,
            before,
            unmended,
            popped,
            *scheduler,
            host as int,
            before[host as int].events@.drop_first(),
        );
        assert(popped[host as int].same_place(&before[host as int]));
        assert(before[host as int].index == host);
        match eventtype {
            EventType::InterParticleCollision(e) => {
                lemma_resident_exists(particles@, before, host as int, e.p_old);
                lemma_resident_exists(particles@, before, host as int, e.q_old);
            },
            EventType::MoveToNeighbour(e) => {
                lemma_resident_exists(particles@, before, host as int, e.p_old);
                assert(popped[e.new_cell_index as int].same_place(&before[e.new_cell_index as int]));
            },
            EventType::MoveOutOfCell(e) => {
                lemma_resident_exists(particles@, before, host as int, e.p_old);
            },
            EventType::WallReflection(e) => {
                lemma_resident_exists(particles@, before, host as int, e.p_old);
            },
            EventType::Synchronisation(_) => {},
        }
    }
    let requests: Vec<Candidate> = dispatch(eventtype, particles, cells, scheduler);
    Ok((event, requests))
}

/// Takes the first event out of the list of cell `host` and repairs the heap.
pub fn pop_event<P>(host: usize, cells: &mut Vec<Cell<P>>, scheduler: &mut Scheduler) -> (event:
    Event<P>)
    requires
        scheduled(old(cells)@, *old(scheduler)),
        host < old(cells).len(),
        0 < old(cells)[host as int].events.len(),
    ensures
        scheduled(final(cells)@, *final(scheduler)),
        event == old(cells)[host as int].events@[0],
        relisted(
            old(cells)@,
            old(scheduler).heap(),
            final(cells)@,
            final(scheduler).heap(),
            host as int,
            old(cells)[host as int].events@.drop_first(),
        ),
{
    let ghost before = cells@;
    let ghost pending = cells[host as int].events@;
    let event: Event<P> = cells[host].events.remove(0);
    let time_aft: u64 = get_head_event_time(&cells[host].events);
    proof {
        assert(cells[host as int].events@ =~= pending.drop_first());
        assert(events_replaced(before, cells@, host as int, pending.drop_first()));
        assert(keys(cells@).update(host as int, event.time) =~= keys(before));
    }
    scheduler.update(cells, host, event.time, time_aft);
    proof {
        let popped = cells@;
        assert forall|c: int| 0 <= c < popped.len() implies sorted((#[trigger] popped[c]).events@) by {
            assert(sorted(before[c].events@));
            if c == host {
                assert forall|i: int, j: int|
                    0 <= i <= j < popped[c].events@.len() implies popped[c].events@[i].time
                    <= popped[c].events@[j].time by {
                    assert(pending[i + 1].time <= pending[j + 1].time);
                }
            }
        }
        assert forall|c: int, i: int|
            0 <= c < popped.len() && 0 <= i < popped[c].events.len() implies (
        #[trigger] popped[c].events@[i]).eventtype.hosted_by(popped[c], popped.len() as int)
            && popped[c].events@[i].time < NO_EVENT by {
            lemma_hosting_kept(before[c], popped[c], before.len() as int);
            if c == host {
                assert(popped[c].events@[i] == before[c].events@[i + 1]);
            } else {
                assert(popped[c].events@[i] == before[c].events@[i]);
            }
        }
    }
    event
}

/// Whether an event of the given type can act on the given particles and cells: it
/// names particles and cells that exist, registers no particle twice and takes out
/// none that is not there.
pub open spec fn applicable<P>(
    eventtype: EventType,
    particles: Seq<Particle>,
    cells: Seq<Cell<P>>,
) -> bool {
    match eventtype {
        EventType::InterParticleCollision(e) => e.p_old < particles.len() && e.q_old
            < particles.len(),
        EventType::MoveToNeighbour(e) => e.p_old < particles.len() && e.new_cell_index
            < cells.len() && !cells[e.new_cell_index as int].particles@.contains(e.p_old),
        EventType::MoveOutOfCell(e) => e.p_old < particles.len() && e.cell < cells.len()
            && cells[e.cell as int].particles@.contains(e.p_old),
        EventType::WallReflection(e) => e.p_old < particles.len(),
        EventType::Synchronisation(_) => true,
    }
}

/// Lets an event of the given type act: registers or forgets its particle, cancels
/// the events that it outdates, and lists the predictions that are due after it.
pub fn dispatch<P>(
    eventtype: EventType,
    particles: &mut Vec<Particle>,
    cells: &mut Vec<Cell<P>>,
    scheduler: &mut Scheduler,
) -> (requests: Vec<Candidate>)
    requires
        registered(old(particles)@, old(cells)@),
        scheduled(old(cells)@, *old(scheduler)),
        applicable(eventtype, old(particles)@, old(cells)@),
    ensures
        registered(final(particles)@, final(cells)@),
        scheduled(final(cells)@, *final(scheduler)),
        same_grid(old(cells)@, final(cells)@),
        snapshot(final(particles)@, final(cells)@, *final(scheduler)) == snapshot(
            old(particles)@,
            old(cells)@,
            *old(scheduler),
        ).fired(eventtype),
        requests@ == snapshot(final(particles)@, final(cells)@, *final(scheduler)).requests(
            eventtype,
        ),
{
    match eventtype {
        EventType::InterParticleCollision(e) => e.execute(particles, cells, scheduler),
        EventType::MoveToNeighbour(e) => e.execute(particles, cells, scheduler),
        EventType::MoveOutOfCell(e) => {
            e.execute(particles, cells, scheduler);
            Vec::new()
        },
        EventType::WallReflection(e) => e.execute(particles, cells, scheduler),
        EventType::Synchronisation(e) => e.execute(),
    }
}

/// A resident of a cell is one of the particles.
pub proof fn lemma_resident_exists<P>(
    particles: Seq<Particle>,
    cells: Seq<Cell<P>>,
    c: int,
    p: usize,
)
    requires
        registered(particles, cells),
        0 <= c < cells.len(),
        cells[c].particles@.contains(p),
    ensures
        p < particles.len(),
{
    let k = choose|k: int| 0 <= k < cells[c].particles@.len() && cells[c].particles@[k] == p;
    assert(cells[c].particles@[k] < particles.len());
}

/// In a scheduled state the times of each cell's events never decrease along its
/// list.
pub proof fn lemma_events_ascend<P>(
    cells: Seq<Cell<P>>,
    scheduler: Scheduler,
    c: int,
    i: int,
    j: int,
)
    requires
        scheduled(cells, scheduler),
        0 <= c < cells.len(),
        0 <= i <= j < cells[c].events.len(),
    ensures
        cells[c].events@[i].time <= cells[c].events@[j].time,
{
    assert(sorted(cells[c].events@));
}

/// In a scheduled state every event refers only to residents of the cell in whose
/// list it stands.
pub proof fn lemma_events_of_residents<P>(
    cells: Seq<Cell<P>>,
    scheduler: Scheduler,
    c: int,
    i: int,
    p: usize,
)
    requires
        scheduled(cells, scheduler),
        0 <= c < cells.len(),
        0 <= i < cells[c].events.len(),
        cells[c].events@[i].eventtype.involves(p),
    ensures
        cells[c].particles@.contains(p),
{
    lemma_hosted_involves(cells[c].events@[i].eventtype, cells[c], cells.len() as int, p);
}

/// An event that a cell may host refers only to residents of that cell.
pub proof fn lemma_hosted_involves<P>(eventtype: EventType, host: Cell<P>, ncells: int, p: usize)
    requires
        eventtype.hosted_by(host, ncells),
        eventtype.involves(p),
    ensures
        host.particles@.contains(p),
{
}

/// Cells that keep their indices and residents stay registered with the particles.
pub proof fn lemma_registered_kept<P>(
    particles: Seq<Particle>,
    before: Seq<Cell<P>>,
    after: Seq<Cell<P>>,
)
    requires
        registered(particles, before),
        after.len() == before.len(),
        forall|c: int|
            0 <= c < before.len() ==> (#[trigger] after[c]).index == before[c].index
                && after[c].particles@ == before[c].particles@,
    ensures
        registered(particles, after),
{
    assert forall|p: usize, c: usize|
        #![trigger after[c as int].particles@.contains(p)]
        #![trigger particles[p as int].cells@.contains(c)]
        p < particles.len() && c < after.len() implies (after[c as int].particles@.contains(p)
        <==> particles[p as int].cells@.contains(c)) by {
        assert(before[c as int].particles@.contains(p) <==> particles[p as int].cells@.contains(c));
    }
    assert forall|c: int| 0 <= c < after.len() implies {
        &&& (#[trigger] after[c]).index == c
        &&& after[c].particles@.no_duplicates()
        &&& forall|k: int|
            0 <= k < after[c].particles.len() ==> (#[trigger] after[c].particles@[k])
                < particles.len()
    } by {
        assert(before[c].index == c);
    }
}

/// Cells that keep their events and lose no resident stay scheduled.
pub proof fn lemma_scheduled_kept<P>(before: Seq<Cell<P>>, after: Seq<Cell<P>>, scheduler: Scheduler)
    requires
        scheduled(before, scheduler),
        after.len() == before.len(),
        forall|c: int|
            0 <= c < before.len() ==> (#[trigger] after[c]).index == before[c].index
                && after[c].events@ == before[c].events@ && forall|p: usize|
                before[c].particles@.contains(p) ==> after[c].particles@.contains(p),
    ensures
        scheduled(after, scheduler),
{
    assert(keys(after) =~= keys(before));
    assert forall|c: int| 0 <= c < after.len() implies sorted((#[trigger] after[c]).events@) by {
        assert(sorted(before[c].events@));
    }
    assert forall|c: int, i: int|
        0 <= c < after.len() && 0 <= i < after[c].events.len() implies (#[trigger] after[c].events@[i]).time
        < NO_EVENT && after[c].events@[i].eventtype.hosted_by(after[c], after.len() as int) by {
        assert(before[c].events@[i].time < NO_EVENT);
        assert(before[c].events@[i].eventtype.hosted_by(before[c], before.len() as int));
    }
}

/// A cell hosts what a cell with the same index and residents hosts.
pub proof fn lemma_hosting_kept<P>(before: Cell<P>, after: Cell<P>, ncells: int)
    requires
        after.index == before.index,
        after.particles@ == before.particles@,
    ensures
        forall|eventtype: EventType| #[trigger]
            eventtype.hosted_by(before, ncells) ==> eventtype.hosted_by(after, ncells),
{
}

} // verus!
