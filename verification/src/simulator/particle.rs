//! The particles as the cells see them: identity and membership.

use vstd::prelude::*;
use crate::simulator::cell::Cell;
use crate::simulator::debug::registered;
use crate::simulator::util::lemma_contains_push;
use crate::simulator::extrema::Extrema;
use crate::simulator::NDIMS;

verus! {

/// The discrete side of a particle: its identity and the cells it overlaps.
pub struct Particle {
    /// Stable identity: the position in the list of all particles.
    pub index: usize,
    /// Indices of the cells whose bounds the disc intersects.
    pub cells: Vec<usize>,
}

/// The position of the first occurrence of `value` in `list`, if there is one.
pub fn find(list: &Vec<usize>, value: usize) -> (position: Option<usize>)
    ensures
        position is Some <==> list@.contains(value),
        position matches Some(n) ==> n < list.len() && list@[n as int] == value
            && list@.index_of_first(value) == Some(n as int),
{
    let mut n: usize = 0;
    while n < list.len()
        invariant
            n <= list.len(),
            forall|i: int| 0 <= i < n ==> list@[i] != value,
        decreases list.len() - n,
    {
        if list[n] == value {
            proof {
                list@.index_of_first_ensures(value);
            }
            return Some(n);
        }
        n += 1;
    }
    None
}

/// Whether some value stands twice in `list`.
pub fn check_duplication(list: &Vec<usize>) -> (duplicated: bool)
    ensures
        duplicated == !list@.no_duplicates(),
{
    let mut n: usize = 0;
    while n < list.len()
        invariant
            n <= list.len(),
            forall|i: int, j: int| 0 <= i < n && i < j < list.len() ==> list@[i] != list@[j],
        decreases list.len() - n,
    {
        let mut m: usize = n + 1;
        while m < list.len()
            invariant
                n < m <= list.len(),
                forall|j: int| n < j < m ==> list@[n as int] != list@[j],
            decreases list.len() - m,
        {
            if list[n] == list[m] {
                return true;
            }
            m += 1;
        }
        n += 1;
    }
    assert forall|i: int, j: int|
        0 <= i < list.len() && 0 <= j < list.len() && i != j implies list@[i] != list@[j] by {
        if i < j {
        } else {
            assert(list@[j] != list@[i]);
        }
    }
    false
}

/// The cell coordinates from `span.min` up to, not including, `span.max`, capped at
/// the number of cells along the axis.
pub open spec fn covered(span: Extrema<usize>, count: usize) -> Seq<usize> {
    let max = if span.max < count {
        span.max
    } else {
        count
    };
    if span.min < max {
        Seq::new((max - span.min) as nat, |i: int| (span.min + i) as usize)
    } else {
        Seq::empty()
    }
}

/// The cell coordinates that the first `upto` spans cover, span after span.
pub open spec fn covered_by(spans: Seq<Extrema<usize>>, count: usize, upto: int) -> Seq<usize>
    decreases upto,
{
    if upto <= 0 {
        Seq::empty()
    } else {
        covered_by(spans, count, upto - 1) + covered(spans[upto - 1], count)
    }
}

/// The row-major index of the cell with the first coordinate `x` in the row `y` of a
/// grid of `width` cells per row.
pub open spec fn in_row(width: usize, y: usize) -> spec_fn(usize) -> usize {
    |x: usize| (x + width * y) as usize
}

/// The row-major indices of the cells with a first coordinate of `xs` and a second
/// coordinate among the first `upto` of `ys`: row after row, and in each row in
/// the order of `xs`.
pub open spec fn rows(width: usize, xs: Seq<usize>, ys: Seq<usize>, upto: int) -> Seq<usize>
    decreases upto,
{
    if upto <= 0 {
        Seq::empty()
    } else {
        rows(width, xs, ys, upto - 1) + xs.map_values(in_row(width, ys[upto - 1]))
    }
}

/// Lists along one axis the cell coordinates that the given spans cover.
fn enumerate(spans: &Vec<Extrema<usize>>, count: usize) -> (indices: Vec<usize>)
    ensures
        indices@ == covered_by(spans@, count, spans.len() as int),
        forall|i: int| 0 <= i < indices.len() ==> (#[trigger] indices[i]) < count,
{
    let mut indices: Vec<usize> = Vec::new();
    let mut k: usize = 0;
    while k < spans.len()
        invariant
            k <= spans.len(),
            indices@ == covered_by(spans@, count, k as int),
            forall|i: int| 0 <= i < indices.len() ==> (#[trigger] indices[i]) < count,
        decreases spans.len() - k,
    {
        let min: usize = spans[k].min;
        let max: usize = if spans[k].max < count {
            spans[k].max
        } else {
            count
        };
        let ghost first = indices@;
        let mut n: usize = min;
        while n < max
            invariant
                min <= n,
                n <= max || max <= min,
                max <= count,
                indices@ == first + if min < max {
                    Seq::new((n - min) as nat, |i: int| (min + i) as usize)
                } else {
                    Seq::empty()
                },
                forall|i: int| 0 <= i < indices.len() ==> (#[trigger] indices[i]) < count,
            decreases max - n,
        {
            indices.push(n);
            n += 1;
            assert(indices@ =~= first + Seq::new((n - min) as nat, |i: int| (min + i) as usize));
        }
        assert(indices@ =~= first + covered(spans@[k as int], count));
        k += 1;
    }
    indices
}

/// Lists the cells that a disc overlaps, given for each axis the spans of cell
/// coordinates that its extent covers: every cell whose coordinate along each axis
/// is covered, row after row.
pub fn from_p_to_c(ncells: &[usize; NDIMS], spans: &[Vec<Extrema<usize>>; NDIMS]) -> (cell_indices:
    Vec<usize>)
    requires
        ncells[0] * ncells[1] <= usize::MAX,
    ensures
        cell_indices@ == rows(
            ncells[0],
            covered_by(spans[0]@, ncells[0], spans[0].len() as int),
            covered_by(spans[1]@, ncells[1], spans[1].len() as int),
            covered_by(spans[1]@, ncells[1], spans[1].len() as int).len() as int,
        ),
        forall|i: int|
            0 <= i < cell_indices.len() ==> (#[trigger] cell_indices[i]) < ncells[0] * ncells[1],
{
    let xs: Vec<usize> = enumerate(&spans[0], ncells[0]);
    let ys: Vec<usize> = enumerate(&spans[1], ncells[1]);
    let width: usize = ncells[0];
    let mut cell_indices = Vec::<usize>::new();
    let mut j: usize = 0;
    while j < ys.len()
        invariant
            j <= ys.len(),
            width == ncells[0],
            ncells[0] * ncells[1] <= usize::MAX,
            forall|i: int| 0 <= i < xs.len() ==> (#[trigger] xs[i]) < ncells[0],
            forall|i: int| 0 <= i < ys.len() ==> (#[trigger] ys[i]) < ncells[1],
            cell_indices@ == rows(width, xs@, ys@, j as int),
            forall|i: int|
                0 <= i < cell_indices.len() ==> (#[trigger] cell_indices[i]) < ncells[0]
                    * ncells[1],
        decreases ys.len() - j,
    {
        let index1: usize = ys[j];
        let ghost above = cell_indices@;
        let mut i: usize = 0;
        while i < xs.len()
            invariant
                i <= xs.len(),
                width == ncells[0],
                index1 < ncells[1],
                ncells[0] * ncells[1] <= usize::MAX,
                forall|i: int| 0 <= i < xs.len() ==> (#[trigger] xs[i]) < ncells[0],
                cell_indices@ == above + xs@.take(i as int).map_values(in_row(width, index1)),
                forall|i: int|
                    0 <= i < cell_indices.len() ==> (#[trigger] cell_indices[i]) < ncells[0]
                        * ncells[1],
            decreases xs.len() - i,
        {
            let index0: usize = xs[i];
            assert(index0 + width * index1 < ncells[0] * ncells[1]) by (nonlinear_arith)
                requires
                    index0 < width,
                    index1 < ncells[1],
                    width == ncells[0],
            ;
            assert(0 <= width * index1) by (nonlinear_arith);
            cell_indices.push(index0 + width * index1);
            i += 1;
            assert(cell_indices@ =~= above + xs@.take(i as int).map_values(in_row(width, index1)));
        }
        assert(xs@.take(i as int) =~= xs@);
        j += 1;
    }
    cell_indices
}

/// Creates the next particle and registers it in each of the given cells, and the
/// cells with it. Returns the index of the new particle.
pub fn init_particle<P>(
    particles: &mut Vec<Particle>,
    cells: &mut Vec<Cell<P>>,
    cell_indices: Vec<usize>,
) -> (index: usize)
    requires
        registered(old(particles)@, old(cells)@),
        cell_indices@.no_duplicates(),
        forall|k: int| 0 <= k < cell_indices.len() ==> (#[trigger] cell_indices[k]) < old(cells).len(),
    ensures
        registered(final(particles)@, final(cells)@),
        index == old(particles).len(),
        final(particles).len() == index + 1,
        forall|p: int| 0 <= p < index ==> (#[trigger] final(particles)[p]) == old(particles)[p],
        final(particles)[index as int].cells@ == cell_indices@,
        final(cells).len() == old(cells).len(),
        forall|c: int|
            0 <= c < old(cells).len() ==> {
                &&& (#[trigger] final(cells)[c]).index == old(cells)[c].index
                &&& final(cells)[c].events@ == old(cells)[c].events@
                &&& final(cells)[c].positions == old(cells)[c].positions
                &&& final(cells)[c].neighbours == old(cells)[c].neighbours
                &&& final(cells)[c].particles@ == if cell_indices@.contains(c as usize) {
                    old(cells)[c].particles@.push(index)
                } else {
                    old(cells)[c].particles@
                }
            },
{
    let ghost before = cells@;
    let ghost owners = particles@;
    let index: usize = particles.len();
    let mut k: usize = 0;
    while k < cell_indices.len()
        invariant
            k <= cell_indices.len(),
            index == owners.len(),
            particles@ == owners,
            registered(owners, before),
            cell_indices@.no_duplicates(),
            cells.len() == before.len(),
            forall|k: int| 0 <= k < cell_indices.len() ==> (#[trigger] cell_indices[k]) < before.len(),
            forall|c: int|
                0 <= c < before.len() ==> {
                    &&& (#[trigger] cells[c]).index == before[c].index
                    &&& cells[c].events@ == before[c].events@
                    &&& cells[c].positions == before[c].positions
                    &&& cells[c].neighbours == before[c].neighbours
                    &&& cells[c].particles@ == if cell_indices@.take(k as int).contains(c as usize) {
                        before[c].particles@.push(index)
                    } else {
                        before[c].particles@
                    }
                },
        decreases cell_indices.len() - k,
    {
        let cell_index: usize = cell_indices[k];
        let ghost previous = cells@;
        proof {
            let front = cell_indices@.take(k as int);
            assert(!front.contains(cell_index)) by {
                if front.contains(cell_index) {
                    let i = choose|i: int| 0 <= i < front.len() && front[i] == cell_index;
                    assert(cell_indices@[i] == cell_indices@[k as int]);
                }
            }
            let residents = before[cell_index as int].particles@;
            assert(!residents.contains(index)) by {
                if residents.contains(index) {
                    let i = choose|i: int| 0 <= i < residents.len() && residents[i] == index;
                    assert(before[cell_index as int].particles@[i] < owners.len());
                }
            }
        }
        cells[cell_index].append(index);
        proof {
            let front = cell_indices@.take(k as int);
            cell_indices@.lemma_take_succ_push(k as int);
            assert forall|c: int| 0 <= c < before.len() implies (#[trigger] cells[c]).particles@
                == if cell_indices@.take(k + 1).contains(c as usize) {
                before[c].particles@.push(index)
            } else {
                before[c].particles@
            } by {
                lemma_contains_push(front, cell_index, c as usize);
                if c != cell_index {
                    assert(cells[c] == previous[c]);
                }
            }
        }
        k += 1;
    }
    proof {
        assert(cell_indices@.take(k as int) =~= cell_indices@);
    }
    let ghost membership = cell_indices@;
    particles.push(Particle { index, cells: cell_indices });
    proof {
        let after = cells@;
        let members = particles@;
        assert forall|p: int| 0 <= p < members.len() implies {
            &&& (#[trigger] members[p]).index == p
            &&& members[p].cells@.no_duplicates()
            &&& forall|k: int|
                0 <= k < members[p].cells.len() ==> (#[trigger] members[p].cells@[k]) < after.len()
        } by {
            if p < index {
                assert(members[p] == owners[p]);
            }
        }
        assert forall|c: int| 0 <= c < after.len() implies {
            &&& (#[trigger] after[c]).index == c
            &&& after[c].particles@.no_duplicates()
            &&& forall|k: int|
                0 <= k < after[c].particles.len() ==> (#[trigger] after[c].particles@[k])
                    < members.len()
        } by {
            assert(before[c].index == c);
            let residents = before[c].particles@;
            assert forall|k: int| 0 <= k < residents.len() implies (#[trigger] residents[k])
                < index by {
                assert(before[c].particles@[k] < owners.len());
            }
            if membership.contains(c as usize) {
                assert(!residents.contains(index)) by {
                    if residents.contains(index) {
                        let i = choose|i: int| 0 <= i < residents.len() && residents[i] == index;
                        assert(residents[i] < index);
                    }
                }
                crate::simulator::util::lemma_push_value(residents, index);
                assert forall|k: int| 0 <= k < after[c].particles.len() implies (
                #[trigger] after[c].particles@[k]) < members.len() by {
                    if k < residents.len() {
                        assert(after[c].particles@[k] == residents[k]);
                    }
                }
            }
        }
        assert forall|p: usize, c: usize|
            #![trigger after[c as int].particles@.contains(p)]
            #![trigger members[p as int].cells@.contains(c)]
            p < members.len() && c < after.len() implies (after[c as int].particles@.contains(p)
            <==> members[p as int].cells@.contains(c)) by {
            let residents = before[c as int].particles@;
            if membership.contains(c) {
                lemma_contains_push(residents, index, p);
            }
            if p < index {
                assert(members[p as int] == owners[p as int]);
                assert(residents.contains(p) <==> owners[p as int].cells@.contains(c));
            } else {
                assert(!residents.contains(p)) by {
                    if residents.contains(p) {
                        let i = choose|i: int| 0 <= i < residents.len() && residents[i] == p;
                        assert(before[c as int].particles@[i] < owners.len());
                    }
                }
            }
        }
    }
    index
}

impl Particle {
    /// Makes the particle remember that it overlaps `cell`.
    pub fn append(&mut self, cell: usize)
        requires
            !old(self).cells@.contains(cell),
        ensures
            final(self).index == old(self).index,
            final(self).cells@ == old(self).cells@.push(cell),
    {
        self.cells.push(cell);
    }

    /// Makes the particle forget `cell`.
    pub fn remove(&mut self, cell: usize)
        requires
            old(self).cells@.contains(cell),
        ensures
            final(self).index == old(self).index,
            final(self).cells@ == old(self).cells@.remove_value(cell),
    {
        let position: usize = find(&self.cells, cell).unwrap();
        self.cells.remove(position);
    }
}

} // verus!
