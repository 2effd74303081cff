//! The heap that finds the cell with the earliest pending event.

use vstd::prelude::*;
use crate::simulator::cell::Cell;
use crate::simulator::event::{get_head_event_time, head_time, NO_EVENT};

verus! {

/// Minimum heap of cells, keyed by the time of each cell's first pending event.
pub struct Scheduler {
    /// Number of items.
    nitems: usize,
    /// Main minimum heap: cell indices.
    heap: Vec<usize>,
    /// Look-up table to find the heap position from the cell index.
    lookups: Vec<usize>,
}

/// The key of every cell: the time of its first pending event, `NO_EVENT` without one.
pub open spec fn keys<P>(cells: Seq<Cell<P>>) -> Seq<u64> {
    Seq::new(cells.len(), |c: int| head_time(cells[c].events@))
}

/// The key of the cell at heap position `n`.
pub open spec fn key_at(heap: Seq<usize>, keys: Seq<u64>, n: int) -> u64 {
    keys[heap[n] as int]
}

/// Whether `heap` lists every index below its length and `lookups` leads back from
/// each index to its position.
pub open spec fn inverse(heap: Seq<usize>, lookups: Seq<usize>) -> bool {
    &&& heap.len() == lookups.len()
    &&& forall|n: int|
        0 <= n < heap.len() ==> (#[trigger] heap[n]) < heap.len() && lookups[heap[n] as int] == n
    &&& forall|c: int|
        0 <= c < lookups.len() ==> (#[trigger] lookups[c]) < heap.len() && heap[lookups[c] as int]
            == c
}

/// Heap order: the key of a node is never below the key of its parent.
pub open spec fn heap_ordered(heap: Seq<usize>, keys: Seq<u64>) -> bool {
    forall|n: int|
        1 <= n < heap.len() ==> key_at(heap, keys, (n - 1) / 2) <= #[trigger] key_at(heap, keys, n)
}

/// The heap with the cells at positions `n_a` and `n_b` exchanged.
pub open spec fn exchanged(heap: Seq<usize>, n_a: int, n_b: int) -> Seq<usize> {
    heap.update(n_a, heap[n_b]).update(n_b, heap[n_a])
}

/// The key of the cell at heap position `n`, `NO_EVENT` beyond the last position.
pub open spec fn data_at(heap: Seq<usize>, keys: Seq<u64>, n: int) -> u64 {
    if 0 <= n < heap.len() {
        key_at(heap, keys, n)
    } else {
        NO_EVENT
    }
}

/// The heap after the cell at position `pos` has risen: it changes places with its
/// parent as long as its key is below the parent's.
#[verifier::opaque]
pub open spec fn risen(heap: Seq<usize>, keys: Seq<u64>, pos: int) -> Seq<usize>
    decreases pos,
{
    if 0 < pos < heap.len() && key_at(heap, keys, pos) < key_at(heap, keys, (pos - 1) / 2) {
        risen(exchanged(heap, pos, (pos - 1) / 2), keys, (pos - 1) / 2)
    } else {
        heap
    }
}

/// The heap after the cell at position `pos` has sunk: it changes places with the
/// child of the lesser key, with the left one where the two are equal, as long as
/// that key is below its own.
#[verifier::opaque]
pub open spec fn sunk(heap: Seq<usize>, keys: Seq<u64>, pos: int) -> Seq<usize>
    decreases heap.len() - pos,
{
    if 0 <= pos < heap.len() {
        let data_p = data_at(heap, keys, pos);
        let data_l = data_at(heap, keys, 2 * pos + 1);
        let data_r = data_at(heap, keys, 2 * pos + 2);
        if data_l < data_p && data_l <= data_r {
            sunk(exchanged(heap, 2 * pos + 1, pos), keys, 2 * pos + 1)
        } else if data_r < data_p && data_r < data_l {
            sunk(exchanged(heap, pos, 2 * pos + 2), keys, 2 * pos + 2)
        } else {
            heap
        }
    } else {
        heap
    }
}

/// The heap after the key of the cell at position `pos` went from `before` to what
/// `keys` holds: the cell sinks where its key grew, and rises otherwise.
pub open spec fn repaired(heap: Seq<usize>, keys: Seq<u64>, pos: int, before: u64) -> Seq<usize> {
    if before < key_at(heap, keys, pos) {
        sunk(heap, keys, pos)
    } else {
        risen(heap, keys, pos)
    }
}

/// One step of `risen`.
pub proof fn lemma_risen(heap: Seq<usize>, keys: Seq<u64>, pos: int)
    ensures
        risen(heap, keys, pos) == if 0 < pos < heap.len() && key_at(heap, keys, pos) < key_at(
            heap,
            keys,
            (pos - 1) / 2,
        ) {
            risen(exchanged(heap, pos, (pos - 1) / 2), keys, (pos - 1) / 2)
        } else {
            heap
        },
{
    reveal(risen);
}

/// One step of `sunk`.
pub proof fn lemma_sunk(heap: Seq<usize>, keys: Seq<u64>, pos: int)
    ensures
        sunk(heap, keys, pos) == if 0 <= pos < heap.len() {
            let data_p = data_at(heap, keys, pos);
            let data_l = data_at(heap, keys, 2 * pos + 1);
            let data_r = data_at(heap, keys, 2 * pos + 2);
            if data_l < data_p && data_l <= data_r {
                sunk(exchanged(heap, 2 * pos + 1, pos), keys, 2 * pos + 1)
            } else if data_r < data_p && data_r < data_l {
                sunk(exchanged(heap, pos, 2 * pos + 2), keys, 2 * pos + 2)
            } else {
                heap
            }
        } else {
            heap
        },
{
    reveal(sunk);
}

/// A repair for a key that has not changed leaves an ordered heap as it is.
pub proof fn lemma_unchanged_key(heap: Seq<usize>, keys: Seq<u64>, pos: int)
    requires
        heap_ordered(heap, keys),
        0 <= pos < heap.len(),
    ensures
        repaired(heap, keys, pos, key_at(heap, keys, pos)) == heap,
{
    lemma_risen(heap, keys, pos);
    if pos > 0 {
        assert(key_at(heap, keys, (pos - 1) / 2) <= key_at(heap, keys, pos));
    }
}

/// The look-up table holds for each cell the one position at which the heap lists it.
pub proof fn lemma_position(heap: Seq<usize>, lookups: Seq<usize>, c: usize)
    requires
        inverse(heap, lookups),
        c < heap.len(),
    ensures
        heap.index_of(c) == lookups[c as int],
        heap[lookups[c as int] as int] == c,
{
    let n = lookups[c as int] as int;
    assert(0 <= n < heap.len() && heap[n] == c);
    let m = heap.index_of(c);
    assert(0 <= m < heap.len() && heap[m] == c);
    assert(lookups[heap[m] as int] == m);
}

/// Where the heap was in order before the key of one cell changed, it is still in
/// order but for the links of that cell: those to its children where the key grew,
/// the one to its parent otherwise.
proof fn lemma_key_changed(
    heap: Seq<usize>,
    lookups: Seq<usize>,
    after: Seq<u64>,
    c: int,
    time_bef: u64,
)
    requires
        inverse(heap, lookups),
        0 <= c < heap.len(),
        after.len() == heap.len(),
        heap_ordered(heap, after.update(c, time_bef)),
    ensures
        key_at(heap, after, lookups[c] as int) == after[c],
        time_bef < after[c] ==> ordered_above(heap, after, lookups[c] as int),
        time_bef >= after[c] ==> ordered_below(heap, after, lookups[c] as int),
{
    let position = lookups[c] as int;
    let before = after.update(c, time_bef);
    assert forall|n: int| 0 <= n < heap.len() && n != position implies key_at(heap, after, n)
        == key_at(heap, before, n) by {}
    assert(key_at(heap, before, position) == time_bef);
    if time_bef < after[c] {
        assert forall|n: int| 1 <= n < heap.len() && (n - 1) / 2 != position implies key_at(
            heap,
            after,
            (n - 1) / 2,
        ) <= #[trigger] key_at(heap, after, n) by {
            assert(key_at(heap, before, (n - 1) / 2) <= key_at(heap, before, n));
        }
    } else {
        assert forall|n: int| 1 <= n < heap.len() && n != position implies key_at(
            heap,
            after,
            (n - 1) / 2,
        ) <= #[trigger] key_at(heap, after, n) by {
            assert(key_at(heap, before, (n - 1) / 2) <= key_at(heap, before, n));
        }
    }
    if position >= 1 {
        assert forall|n: int| 1 <= n < heap.len() && (n - 1) / 2 == position implies key_at(
            heap,
            after,
            (position - 1) / 2,
        ) <= #[trigger] key_at(heap, after, n) by {
            assert(key_at(heap, before, (n - 1) / 2) <= key_at(heap, before, n));
            assert(key_at(heap, before, (position - 1) / 2) <= key_at(heap, before, position));
        }
    }
}

/// Heap order but for the link between `pos` and its parent.
spec fn ordered_below(heap: Seq<usize>, keys: Seq<u64>, pos: int) -> bool {
    &&& forall|n: int|
        1 <= n < heap.len() && n != pos ==> key_at(heap, keys, (n - 1) / 2) <= #[trigger] key_at(
            heap,
            keys,
            n,
        )
    &&& pos >= 1 ==> forall|n: int|
        1 <= n < heap.len() && (n - 1) / 2 == pos ==> key_at(heap, keys, (pos - 1) / 2)
            <= #[trigger] key_at(heap, keys, n)
}

/// Heap order but for the links between `pos` and its children.
spec fn ordered_above(heap: Seq<usize>, keys: Seq<u64>, pos: int) -> bool {
    &&& forall|n: int|
        1 <= n < heap.len() && (n - 1) / 2 != pos ==> key_at(heap, keys, (n - 1) / 2)
            <= #[trigger] key_at(heap, keys, n)
    &&& pos >= 1 ==> forall|n: int|
        1 <= n < heap.len() && (n - 1) / 2 == pos ==> key_at(heap, keys, (pos - 1) / 2)
            <= #[trigger] key_at(heap, keys, n)
}

/// In an ordered heap the root holds the least key.
pub proof fn lemma_root_is_least(heap: Seq<usize>, keys: Seq<u64>, n: int)
    requires
        heap_ordered(heap, keys),
        0 <= n < heap.len(),
    ensures
        key_at(heap, keys, 0) <= key_at(heap, keys, n),
    decreases n,
{
    if n > 0 {
        lemma_root_is_least(heap, keys, (n - 1) / 2);
    }
}

/// In an ordered heap no node has a key below the key of its parent.
pub proof fn lemma_parent_not_later(scheduler: Scheduler, keys: Seq<u64>, n: int)
    requires
        scheduler.ordered(keys),
        1 <= n < scheduler.nitems(),
        scheduler.wf(),
    ensures
        key_at(scheduler.heap(), keys, (n - 1) / 2) <= key_at(scheduler.heap(), keys, n),
{
}

/// In an ordered heap the cell at the root has the least key of all cells.
pub proof fn lemma_root_cell_is_least(scheduler: Scheduler, keys: Seq<u64>, c: int)
    requires
        scheduler.wf(),
        scheduler.ordered(keys),
        0 <= c < scheduler.nitems(),
    ensures
        keys[scheduler.heap()[0] as int] <= keys[c],
{
    let n = scheduler.lookups()[c] as int;
    lemma_root_is_least(scheduler.heap(), keys, n);
    assert(key_at(scheduler.heap(), keys, n) == keys[c]);
}

impl Scheduler {
    /// The cell indices in heap order.
    pub closed spec fn heap(&self) -> Seq<usize> {
        self.heap@
    }

    /// The heap position of each cell.
    pub closed spec fn lookups(&self) -> Seq<usize> {
        self.lookups@
    }

    /// The number of cells.
    pub closed spec fn nitems(&self) -> nat {
        self.nitems as nat
    }

    /// The heap holds every cell once and the look-up table is its inverse.
    pub open spec fn wf(&self) -> bool {
        &&& self.nitems() == self.heap().len()
        &&& inverse(self.heap(), self.lookups())
    }

    /// The heap is in order for the given keys, one for each cell.
    pub open spec fn ordered(&self, keys: Seq<u64>) -> bool {
        &&& keys.len() == self.nitems()
        &&& heap_ordered(self.heap(), keys)
    }

    /// Constructs a heap that lists the cells in their own order.
    pub fn new<P>(cells: &Vec<Cell<P>>) -> (scheduler: Scheduler)
        ensures
            scheduler.wf(),
            scheduler.nitems() == cells.len(),
            scheduler.heap() == Seq::new(cells.len() as nat, |n: int| n as usize),
            scheduler.lookups() == scheduler.heap(),
            (forall|c: int| 0 <= c < cells.len() ==> (#[trigger] cells[c]).events.len() == 0)
                ==> scheduler.ordered(keys(cells@)),
    {
        let nitems: usize = cells.len();
        let mut heap = Vec::<usize>::new();
        let mut lookups = Vec::<usize>::new();
        let mut n: usize = 0;
        while n < nitems
            invariant
                n <= nitems,
                heap@ == Seq::new(n as nat, |n: int| n as usize),
                lookups@ == heap@,
            decreases nitems - n,
        {
            heap.push(n);
            lookups.push(n);
            n += 1;
        }
        Scheduler { nitems, heap, lookups }
    }

    /// Returns the index of the cell which contains the coming event.
    pub fn get<P>(&self, cells: &Vec<Cell<P>>) -> (cell_index: usize)
        requires
            self.wf(),
            self.ordered(keys(cells@)),
            0 < cells.len(),
        ensures
            cell_index == self.heap()[0],
            cell_index < cells.len(),
            forall|c: int|
                0 <= c < cells.len() ==> head_time(cells[cell_index as int].events@) <= head_time(
                    (#[trigger] cells[c]).events@,
                ),
    {
        proof {
            let ks = keys(cells@);
            assert forall|c: int| 0 <= c < cells.len() implies head_time(
                cells[self.heap@[0] as int].events@,
            ) <= head_time((#[trigger] cells[c]).events@) by {
                let n = self.lookups@[c] as int;
                lemma_root_is_least(self.heap@, ks, n);
                assert(key_at(self.heap@, ks, n) == ks[c]);
            }
        }
        self.heap[0]
    }

    /// Restores the heap order after the key of cell `cell_index` went from
    /// `time_bef` to `time_aft`.
    pub fn update<P>(
        &mut self,
        cells: &Vec<Cell<P>>,
        cell_index: usize,
        time_bef: u64,
        time_aft: u64,
    )
        requires
            old(self).wf(),
            cell_index < cells.len(),
            old(self).ordered(keys(cells@).update(cell_index as int, time_bef)),
            time_aft == head_time(cells[cell_index as int].events@),
        ensures
            final(self).wf(),
            final(self).nitems() == old(self).nitems(),
            final(self).ordered(keys(cells@)),
            final(self).heap() == repaired(
                old(self).heap(),
                keys(cells@),
                old(self).heap().index_of(cell_index),
                time_bef,
            ),
            old(self).ordered(keys(cells@)) ==> final(self).heap() == old(self).heap()
                && final(self).lookups() == old(self).lookups(),
    {
        let position: usize = self.lookups[cell_index];
        proof {
            lemma_position(self.heap@, self.lookups@, cell_index);
            lemma_key_changed(self.heap@, self.lookups@, keys(cells@), cell_index as int, time_bef);
        }
        if time_bef < time_aft {
            self.downshift(cells, position);
        } else {
            self.upshift(cells, position);
        }
    }

    /// The key at heap position `index`, `NO_EVENT` beyond the last position.
    fn get_data<P>(&self, cells: &Vec<Cell<P>>, index: usize) -> (data: u64)
        requires
            self.wf(),
            self.nitems() == cells.len(),
        ensures
            data == if index < self.nitems() {
                key_at(self.heap(), keys(cells@), index as int)
            } else {
                NO_EVENT
            },
    {
        if index >= self.nitems {
            return NO_EVENT;
        }
        let cell_index: usize = self.heap[index];
        get_head_event_time(&cells[cell_index].events)
    }

    /// Exchanges the cells at two heap positions, keeping the look-up table in step.
    fn exchange(&mut self, n_a: usize, n_b: usize)
        requires
            old(self).wf(),
            n_a < old(self).nitems(),
            n_b < old(self).nitems(),
        ensures
            final(self).wf(),
            final(self).nitems() == old(self).nitems(),
            final(self).heap() == exchanged(old(self).heap(), n_a as int, n_b as int),
    {
        let cell_index_a: usize = self.heap[n_a];
        let cell_index_b: usize = self.heap[n_b];
        self.heap[n_a] = cell_index_b;
        self.heap[n_b] = cell_index_a;
        self.lookups[cell_index_a] = n_b;
        self.lookups[cell_index_b] = n_a;
    }

    /// Lets the cell at heap position `n_c` rise to where its key is not below its
    /// parent's.
    fn upshift<P>(&mut self, cells: &Vec<Cell<P>>, n_c: usize)
        requires
            old(self).wf(),
            old(self).nitems() == cells.len(),
            n_c < old(self).nitems(),
            ordered_below(old(self).heap(), keys(cells@), n_c as int),
        ensures
            final(self).wf(),
            final(self).nitems() == old(self).nitems(),
            final(self).ordered(keys(cells@)),
            final(self).heap() == risen(old(self).heap(), keys(cells@), n_c as int),
            old(self).ordered(keys(cells@)) ==> final(self).heap() == old(self).heap()
                && final(self).lookups() == old(self).lookups(),
    {
        let ghost start = n_c as int;
        let mut n_c = n_c;
        proof {
            lemma_risen(self.heap(), keys(cells@), 0);
        }
        while 0 < n_c
            invariant
                self.wf(),
                self.nitems() == old(self).nitems(),
                self.nitems() == cells.len(),
                n_c < self.nitems(),
                ordered_below(self.heap(), keys(cells@), n_c as int),
                old(self).ordered(keys(cells@)) ==> self.heap() == old(self).heap()
                    && self.lookups() == old(self).lookups(),
                risen(old(self).heap(), keys(cells@), start) == risen(
                    self.heap(),
                    keys(cells@),
                    n_c as int,
                ),
                risen(self.heap(), keys(cells@), 0) == self.heap(),
            ensures
                self.ordered(keys(cells@)),
                self.heap() == risen(old(self).heap(), keys(cells@), start),
            decreases n_c,
        {
            let n_p: usize = parent(n_c);
            let data_c: u64 = self.get_data(cells, n_c);
            let data_p: u64 = self.get_data(cells, n_p);
            proof {
                lemma_risen(self.heap(), keys(cells@), n_c as int);
            }
            if data_c < data_p {
                let ghost before = self.heap();
                let ghost ks = keys(cells@);
                assert(!heap_ordered(before, ks)) by {
                    if heap_ordered(before, ks) {
                        assert(key_at(before, ks, (n_c - 1) / 2) <= key_at(before, ks, n_c as int));
                    }
                }
                self.exchange(n_c, n_p);
                proof {
                    lemma_risen(self.heap(), ks, 0);
                    let after = self.heap();
                    assert forall|n: int| 0 <= n < after.len() implies key_at(after, ks, n) == (if n
                        == n_c {
                        key_at(before, ks, n_p as int)
                    } else if n == n_p {
                        key_at(before, ks, n_c as int)
                    } else {
                        key_at(before, ks, n)
                    }) by {}
                    assert forall|n: int| 1 <= n < after.len() && n != n_p implies key_at(
                        after, ks, (n - 1) / 2) <= #[trigger] key_at(after, ks, n) by {
                        assert(key_at(before, ks, (n - 1) / 2) <= key_at(before, ks, n) || n
                            == n_c);
                        if (n - 1) / 2 == n_c {
                            assert(key_at(before, ks, n_p as int) <= key_at(before, ks, n));
                        }
                    }
                    if n_p >= 1 {
                        assert forall|n: int| 1 <= n < after.len() && (n - 1) / 2 == n_p implies key_at(
                            after, ks, (n_p - 1) / 2) <= #[trigger] key_at(after, ks, n) by {
                            assert(key_at(before, ks, (n_p - 1) / 2) <= key_at(before, ks, n_p as int));
                            if n != n_c {
                                assert(key_at(before, ks, n_p as int) <= key_at(before, ks, n));
                            }
                        }
                    }
                }
                n_c = n_p;
            } else {
                proof {
                    let ks = keys(cells@);
                    assert forall|n: int| 1 <= n < self.heap().len() implies key_at(
                        self.heap(), ks, (n - 1) / 2) <= #[trigger] key_at(self.heap(), ks, n) by {}
                }
                break ;
            }
        }
    }

    /// Lets the cell at heap position `n_p` sink to where no child has a key below
    /// its own.
    fn downshift<P>(&mut self, cells: &Vec<Cell<P>>, n_p: usize)
        requires
            old(self).wf(),
            old(self).nitems() == cells.len(),
            n_p < old(self).nitems(),
            ordered_above(old(self).heap(), keys(cells@), n_p as int),
        ensures
            final(self).wf(),
            final(self).nitems() == old(self).nitems(),
            final(self).ordered(keys(cells@)),
            final(self).heap() == sunk(old(self).heap(), keys(cells@), n_p as int),
            old(self).ordered(keys(cells@)) ==> final(self).heap() == old(self).heap()
                && final(self).lookups() == old(self).lookups(),
    {
        let ghost start = n_p as int;
        let mut n_p = n_p;
        let nitems: usize = self.nitems;
        loop
            invariant_except_break
                self.wf(),
                self.nitems() == old(self).nitems(),
                self.nitems() == cells.len(),
                nitems == self.nitems(),
                n_p < nitems,
                ordered_above(self.heap(), keys(cells@), n_p as int),
                sunk(old(self).heap(), keys(cells@), start) == sunk(
                    self.heap(),
                    keys(cells@),
                    n_p as int,
                ),
            invariant
                old(self).ordered(keys(cells@)) ==> self.heap() == old(self).heap()
                    && self.lookups() == old(self).lookups(),
            ensures
                self.wf(),
                self.nitems() == old(self).nitems(),
                self.ordered(keys(cells@)),
                self.heap() == sunk(old(self).heap(), keys(cells@), start),
            decreases nitems - n_p,
        {
            let ghost before = self.heap();
            let ghost ks = keys(cells@);
            if n_p > (usize::MAX - 2) / 2 {
                proof {
                    Self::lemma_sink_done(before, ks, n_p as int);
                }
                break ;
            }
            let n_l: usize = lchild(n_p);
            let n_r: usize = rchild(n_p);
            let data_p: u64 = self.get_data(cells, n_p);
            let data_l: u64 = self.get_data(cells, n_l);
            let data_r: u64 = self.get_data(cells, n_r);
            if data_l < data_p && data_l <= data_r {
                self.exchange(n_l, n_p);
                proof {
                    Self::lemma_sink(before, self.heap(), ks, n_p as int, n_l as int);
                }
                n_p = n_l;
            } else if data_r < data_p && data_r < data_l {
                self.exchange(n_p, n_r);
                proof {
                    Self::lemma_sink(before, self.heap(), ks, n_p as int, n_r as int);
                }
                n_p = n_r;
            } else {
                proof {
                    Self::lemma_sink_done(before, ks, n_p as int);
                }
                break ;
            }
        }
    }

    /// A node without a child of a lesser key stays, and with it the heap is in
    /// order.
    proof fn lemma_sink_done(heap: Seq<usize>, ks: Seq<u64>, pos: int)
        requires
            0 <= pos < heap.len(),
            ordered_above(heap, ks, pos),
            data_at(heap, ks, pos) <= data_at(heap, ks, 2 * pos + 1),
            data_at(heap, ks, pos) <= data_at(heap, ks, 2 * pos + 2),
        ensures
            heap_ordered(heap, ks),
            sunk(heap, ks, pos) == heap,
    {
        lemma_sunk(heap, ks, pos);
        assert forall|n: int| 1 <= n < heap.len() implies key_at(heap, ks, (n - 1) / 2)
            <= #[trigger] key_at(heap, ks, n) by {
            if (n - 1) / 2 == pos {
                assert(n == 2 * pos + 1 || n == 2 * pos + 2);
            }
        }
    }

    /// Exchanging a node with its least child, where that child is below it, moves the
    /// one link that may be out of order one level down, as `sunk` does.
    proof fn lemma_sink(before: Seq<usize>, after: Seq<usize>, ks: Seq<u64>, pos: int, child: int)
        requires
            0 <= pos < child < before.len(),
            child == 2 * pos + 1 || child == 2 * pos + 2,
            ordered_above(before, ks, pos),
            after == exchanged(before, child, pos) || after == exchanged(before, pos, child),
            if child == 2 * pos + 1 {
                data_at(before, ks, child) < data_at(before, ks, pos) && data_at(before, ks, child)
                    <= data_at(before, ks, 2 * pos + 2)
            } else {
                data_at(before, ks, child) < data_at(before, ks, pos) && data_at(before, ks, child)
                    < data_at(before, ks, 2 * pos + 1)
            },
        ensures
            ordered_above(after, ks, child),
            sunk(before, ks, pos) == sunk(after, ks, child),
    {
        lemma_sunk(before, ks, pos);
        assert(exchanged(before, child, pos) =~= exchanged(before, pos, child));
        assert forall|n: int|
            1 <= n < before.len() && (n - 1) / 2 == pos implies key_at(before, ks, child)
            <= #[trigger] key_at(before, ks, n) by {
            assert(n == 2 * pos + 1 || n == 2 * pos + 2);
        }
        assert forall|n: int| 0 <= n < after.len() implies key_at(after, ks, n) == (if n == child {
            key_at(before, ks, pos)
        } else if n == pos {
            key_at(before, ks, child)
        } else {
            key_at(before, ks, n)
        }) by {}
        assert forall|n: int| 1 <= n < after.len() && (n - 1) / 2 != child implies key_at(
            after, ks, (n - 1) / 2) <= #[trigger] key_at(after, ks, n) by {
            if n == pos {
                assert(key_at(before, ks, (pos - 1) / 2) <= key_at(before, ks, child));
            } else if (n - 1) / 2 == pos {
                assert(key_at(before, ks, child) <= key_at(before, ks, n));
            } else {
                assert(key_at(before, ks, (n - 1) / 2) <= key_at(before, ks, n));
            }
        }
        assert forall|n: int| 1 <= n < after.len() && (n - 1) / 2 == child implies key_at(
            after, ks, (child - 1) / 2) <= #[trigger] key_at(after, ks, n) by {
            assert(key_at(before, ks, (n - 1) / 2) <= key_at(before, ks, n));
        }
    }

    /// Lists, in heap order, each cell index with the cell's key.
    pub fn show<P>(&self, cells: &Vec<Cell<P>>) -> (rows: Vec<(usize, u64)>)
        requires
            self.wf(),
            self.nitems() == cells.len(),
        ensures
            rows.len() == self.nitems(),
            forall|n: int|
                0 <= n < rows.len() ==> (#[trigger] rows[n]) == (
                    self.heap()[n],
                    key_at(self.heap(), keys(cells@), n),
                ),
    {
        let nitems: usize = self.nitems;
        let mut rows: Vec<(usize, u64)> = Vec::new();
        let mut n: usize = 0;
        while n < nitems
            invariant
                self.wf(),
                self.nitems() == cells.len(),
                nitems == self.nitems(),
                n <= nitems,
                rows.len() == n,
                forall|k: int|
                    0 <= k < n ==> (#[trigger] rows[k]) == (
                        self.heap()[k],
                        key_at(self.heap(), keys(cells@), k),
                    ),
            decreases nitems - n,
        {
            let cell_index: usize = self.heap[n];
            let data: u64 = self.get_data(cells, n);
            rows.push((cell_index, data));
            n += 1;
        }
        rows
    }

    /// Whether the heap is in order for the cells' present keys.
    pub fn validate<P>(&self, cells: &Vec<Cell<P>>) -> (valid: bool)
        requires
            self.wf(),
            self.nitems() == cells.len(),
        ensures
            valid == self.ordered(keys(cells@)),
    {
        let nitems: usize = self.nitems;
        let mut n_c: usize = 1;
        while n_c < nitems
            invariant
                self.wf(),
                self.nitems() == cells.len(),
                nitems == self.nitems(),
                1 <= n_c,
                forall|n: int|
                    1 <= n < n_c ==> key_at(self.heap(), keys(cells@), (n - 1) / 2)
                        <= #[trigger] key_at(self.heap(), keys(cells@), n),
            decreases nitems - n_c,
        {
            let n_p: usize = parent(n_c);
            let data_c: u64 = self.get_data(cells, n_c);
            let data_p: u64 = self.get_data(cells, n_p);
            if data_c < data_p {
                return false;
            }
            n_c += 1;
        }
        true
    }
}

/// Heap position of the parent of the node at position `n`.
pub fn parent(n: usize) -> (p: usize)
    requires
        1 <= n,
    ensures
        p == (n - 1) / 2,
{
    (n - 1) / 2
}

/// Heap position of the left child of the node at position `n`.
pub fn lchild(n: usize) -> (c: usize)
    requires
        2 * n + 1 <= usize::MAX,
    ensures
        c == 2 * n + 1,
{
    2 * n + 1
}

/// Heap position of the right child of the node at position `n`.
pub fn rchild(n: usize) -> (c: usize)
    requires
        2 * n + 2 <= usize::MAX,
    ensures
        c == 2 * n + 2,
{
    2 * n + 2
}

} // verus!
