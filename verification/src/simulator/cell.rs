//! The grid of cells: row-major indices, coordinates, edge classes and neighbours.

use vstd::arithmetic::div_mod::{
    lemma_div_by_multiple, lemma_div_denominator, lemma_fundamental_div_mod, lemma_mod_pos_bound,
};
use vstd::arithmetic::mul::lemma_mul_strictly_positive;
use vstd::prelude::*;
use crate::simulator::event::Event;
use crate::simulator::extrema::Extrema;
use crate::simulator::particle::find;
use crate::simulator::util::vec_to_array;
use crate::simulator::NDIMS;

verus! {

/// Where a cell lies along one axis; decides whether the periodic image is considered.
#[derive(Debug, PartialEq, Eq, Clone, Copy)]
pub enum CellPosition {
    NegativeEdge,
    PositiveEdge,
    Centre,
}

/// A bucket of the grid, with the particles that overlap it and its pending events.
pub struct Cell<P> {
    /// Position in the row-major list of all cells.
    pub index: usize,
    /// Indices of the particles whose disc overlaps this cell.
    pub particles: Vec<usize>,
    /// Pending events hosted by this cell, earliest first.
    pub events: Vec<Event<P>>,
    /// Edge class along each axis.
    pub positions: [CellPosition; NDIMS],
    /// Indices of the two neighbouring cells along each axis.
    pub neighbours: [Extrema<usize>; NDIMS],
}

/// The distance in the row-major list between two cells that are neighbours along
/// axis `d`: the product of the cell counts of the axes before `d`.
pub open spec fn stride(ncells: Seq<usize>, d: int) -> int
    decreases d,
{
    if d <= 0 {
        1
    } else {
        stride(ncells, d - 1) * (ncells[d - 1] as int)
    }
}

/// The number of cells of a grid with the given counts per axis.
pub open spec fn volume(ncells: Seq<usize>) -> int {
    stride(ncells, ncells.len() as int)
}

/// The coordinate along axis `d` of the cell with the given row-major index.
pub open spec fn coordinate(ncells: Seq<usize>, index: int, d: int) -> int {
    (index / stride(ncells, d)) % (ncells[d] as int)
}

/// The coordinates of the cell with the given row-major index.
pub open spec fn coordinates(ncells: Seq<usize>, index: int) -> Seq<usize> {
    Seq::new(ncells.len(), |d: int| coordinate(ncells, index, d) as usize)
}

/// The row-major index that the coordinates from axis `d` on make up: the
/// coordinate of the first axis runs fastest.
pub open spec fn row_major(ncells: Seq<usize>, indices: Seq<usize>, d: int) -> int
    decreases ncells.len() - d,
{
    if d < 0 || d >= ncells.len() {
        0
    } else {
        row_major(ncells, indices, d + 1) * (ncells[d] as int) + indices[d]
    }
}

/// The coordinates with the one along axis `dim` lowered by one, around the grid.
pub open spec fn lowered(ncells: Seq<usize>, indices: Seq<usize>, dim: int) -> Seq<usize> {
    Seq::new(
        indices.len(),
        |d: int|
            if d != dim {
                indices[d]
            } else if indices[d] == 0 {
                (ncells[d] - 1) as usize
            } else {
                (indices[d] - 1) as usize
            },
    )
}

/// The coordinates with the one along axis `dim` raised by one, around the grid.
pub open spec fn raised(ncells: Seq<usize>, indices: Seq<usize>, dim: int) -> Seq<usize> {
    Seq::new(
        indices.len(),
        |d: int|
            if d != dim {
                indices[d]
            } else if indices[d] == ncells[d] - 1 {
                0usize
            } else {
                (indices[d] + 1) as usize
            },
    )
}

/// The edge class of the cell with coordinate `index` along an axis of `count` cells.
pub open spec fn edge_class(count: usize, index: usize) -> CellPosition {
    if index == 0 {
        CellPosition::NegativeEdge
    } else if index == count - 1 {
        CellPosition::PositiveEdge
    } else {
        CellPosition::Centre
    }
}

/// With a positive count on every axis the strides are positive.
pub proof fn lemma_stride_positive(ncells: Seq<usize>, d: int)
    requires
        0 <= d <= ncells.len(),
        forall|j: int| 0 <= j < ncells.len() ==> 0 < ncells[j],
    ensures
        0 < stride(ncells, d),
    decreases d,
{
    if d > 0 {
        lemma_stride_positive(ncells, d - 1);
        lemma_mul_strictly_positive(stride(ncells, d - 1), ncells[d - 1] as int);
    }
}

/// Coordinates that lie within the grid make up an index below the number of cells.
pub proof fn lemma_row_major_bound(ncells: Seq<usize>, indices: Seq<usize>, d: int)
    requires
        0 <= d <= ncells.len(),
        indices.len() == ncells.len(),
        forall|j: int| 0 <= j < ncells.len() ==> indices[j] < ncells[j],
    ensures
        0 <= row_major(ncells, indices, d),
        (row_major(ncells, indices, d) + 1) * stride(ncells, d) <= volume(ncells),
        row_major(ncells, indices, d) < volume(ncells),
    decreases ncells.len() - d,
{
    lemma_stride_positive(ncells, d);
    let here = row_major(ncells, indices, d);
    let width = stride(ncells, d);
    if d < ncells.len() {
        lemma_row_major_bound(ncells, indices, d + 1);
        let above = row_major(ncells, indices, d + 1);
        let count = ncells[d] as int;
        let wider = stride(ncells, d + 1);
        assert(here == above * count + indices[d]);
        assert(wider == width * count);
        assert(0 <= above * count) by (nonlinear_arith)
            requires
                0 <= above,
                0 < count,
        ;
        assert((here + 1) * width <= (above + 1) * wider) by (nonlinear_arith)
            requires
                here + 1 <= above * count + count,
                0 < width,
                wider == width * count,
        ;
    } else {
        assert(here == 0);
        assert((here + 1) * width == width) by (nonlinear_arith)
            requires
                here == 0,
        ;
    }
    assert(here + 1 <= (here + 1) * width) by (nonlinear_arith)
        requires
            0 <= here,
            0 < width,
    ;
}

/// The coordinates of an index below the number of cells make up that index.
pub proof fn lemma_index_of_coordinates(ncells: Seq<usize>, index: int, d: int)
    requires
        0 <= d <= ncells.len(),
        forall|j: int| 0 <= j < ncells.len() ==> 0 < ncells[j],
        0 <= index < volume(ncells),
    ensures
        row_major(ncells, coordinates(ncells, index), d) == index / stride(ncells, d),
    decreases ncells.len() - d,
{
    lemma_stride_positive(ncells, d);
    let width = stride(ncells, d);
    if d < ncells.len() {
        lemma_index_of_coordinates(ncells, index, d + 1);
        let count = ncells[d] as int;
        lemma_div_denominator(index, width, count);
        lemma_fundamental_div_mod(index / width, count);
        lemma_mod_pos_bound(index / width, count);
        assert(coordinates(ncells, index)[d] == (index / width) % count);
        assert(count * ((index / width) / count) == ((index / width) / count) * count)
            by (nonlinear_arith);
    } else {
        vstd::arithmetic::div_mod::lemma_basic_div(index, width);
    }
}

/// The index that coordinates within the grid make up has those coordinates.
pub proof fn lemma_coordinates_of_index(ncells: Seq<usize>, indices: Seq<usize>, d: int)
    requires
        0 <= d <= ncells.len(),
        indices.len() == ncells.len(),
        forall|j: int| 0 <= j < ncells.len() ==> indices[j] < ncells[j],
    ensures
        row_major(ncells, indices, 0) / stride(ncells, d) == row_major(ncells, indices, d),
        d < ncells.len() ==> coordinate(ncells, row_major(ncells, indices, 0), d) == indices[d],
    decreases d,
{
    let index = row_major(ncells, indices, 0);
    lemma_row_major_bound(ncells, indices, 0);
    if d > 0 {
        lemma_coordinates_of_index(ncells, indices, d - 1);
        lemma_stride_positive(ncells, d - 1);
        lemma_row_major_bound(ncells, indices, d);
        let width = stride(ncells, d - 1);
        let count = ncells[d - 1] as int;
        lemma_div_denominator(index, width, count);
        assert(row_major(ncells, indices, d - 1) == row_major(ncells, indices, d) * count
            + indices[d - 1]);
        vstd::arithmetic::div_mod::lemma_fundamental_div_mod_converse(
            row_major(ncells, indices, d - 1),
            count,
            row_major(ncells, indices, d),
            indices[d - 1] as int,
        );
    } else {
        vstd::arithmetic::div_mod::lemma_div_basics(index);
    }
    if d < ncells.len() {
        lemma_row_major_bound(ncells, indices, d + 1);
        vstd::arithmetic::div_mod::lemma_fundamental_div_mod_converse(
            row_major(ncells, indices, d),
            ncells[d] as int,
            row_major(ncells, indices, d + 1),
            indices[d] as int,
        );
    }
}

/// Along an axis of at least three cells the two neighbours of a cell differ from
/// the cell and from each other, and the cell is the neighbour above of its
/// neighbour below, and the neighbour below of its neighbour above.
pub proof fn lemma_neighbours(ncells: Seq<usize>, index: int, dim: int)
    requires
        forall|j: int| 0 <= j < ncells.len() ==> 0 < ncells[j],
        0 <= index < volume(ncells),
        0 <= dim < ncells.len(),
        3 <= ncells[dim],
    ensures
        row_major(ncells, lowered(ncells, coordinates(ncells, index), dim), 0) != index,
        row_major(ncells, raised(ncells, coordinates(ncells, index), dim), 0) != index,
        row_major(ncells, lowered(ncells, coordinates(ncells, index), dim), 0) != row_major(
            ncells,
            raised(ncells, coordinates(ncells, index), dim),
            0,
        ),
        row_major(
            ncells,
            raised(
                ncells,
                coordinates(
                    ncells,
                    row_major(ncells, lowered(ncells, coordinates(ncells, index), dim), 0),
                ),
                dim,
            ),
            0,
        ) == index,
        row_major(
            ncells,
            lowered(
                ncells,
                coordinates(
                    ncells,
                    row_major(ncells, raised(ncells, coordinates(ncells, index), dim), 0),
                ),
                dim,
            ),
            0,
        ) == index,
{
    let here = coordinates(ncells, index);
    assert forall|j: int| 0 <= j < ncells.len() implies (#[trigger] here[j]) < ncells[j] by {
        lemma_stride_positive(ncells, j);
        vstd::arithmetic::div_mod::lemma_div_pos_is_pos(index, stride(ncells, j));
        lemma_mod_pos_bound(index / stride(ncells, j), ncells[j] as int);
    }
    let below = lowered(ncells, here, dim);
    let above = raised(ncells, here, dim);
    lemma_index_of_coordinates(ncells, index, 0);
    lemma_row_major_bound(ncells, below, 0);
    lemma_row_major_bound(ncells, above, 0);
    let lower = row_major(ncells, below, 0);
    let upper = row_major(ncells, above, 0);
    assert(coordinates(ncells, lower) =~= below) by {
        assert forall|j: int| 0 <= j < ncells.len() implies coordinates(ncells, lower)[j]
            == below[j] by {
            lemma_coordinates_of_index(ncells, below, j);
        }
    }
    assert(coordinates(ncells, upper) =~= above) by {
        assert forall|j: int| 0 <= j < ncells.len() implies coordinates(ncells, upper)[j]
            == above[j] by {
            lemma_coordinates_of_index(ncells, above, j);
        }
    }
    assert(below[dim] != here[dim]);
    assert(above[dim] != here[dim]);
    assert(below[dim] != above[dim]);
    assert(raised(ncells, below, dim) =~= here);
    assert(lowered(ncells, above, dim) =~= here);
    assert(index / stride(ncells, 0) == index) by {
        vstd::arithmetic::div_mod::lemma_div_basics(index);
    }
}

/// Returns the coordinates of the cell with the given row-major index, for each
/// axis the index of the cell along it.
pub fn get_indices(ndims: usize, ncells: &[usize], index: usize) -> (indices: Vec<usize>)
    requires
        forall|d: int| 0 <= d < ncells.len() ==> 0 < ncells[d],
    ensures
        indices@ == coordinates(ncells@, index as int),
{
    let mut indices = Vec::<usize>::with_capacity(ndims);
    let mut rest: usize = index;
    let mut dim: usize = 0;
    while dim < ncells.len()
        invariant
            dim <= ncells.len(),
            forall|d: int| 0 <= d < ncells.len() ==> 0 < ncells[d],
            rest == index as int / stride(ncells@, dim as int),
            indices.len() == dim,
            forall|d: int|
                0 <= d < dim ==> (#[trigger] indices[d]) == coordinate(ncells@, index as int, d),
        decreases ncells.len() - dim,
    {
        let dim_size: usize = ncells[dim];
        let current_index: usize = rest % dim_size;
        proof {
            let width = stride(ncells@, dim as int);
            lemma_stride_positive(ncells@, dim as int);
            lemma_div_denominator(index as int, width, dim_size as int);
            lemma_fundamental_div_mod(rest as int, dim_size as int);
            lemma_div_by_multiple(rest as int / dim_size as int, dim_size as int);
            assert(dim_size as int * (rest as int / dim_size as int) == (rest as int
                / dim_size as int) * dim_size as int) by (nonlinear_arith);
        }
        indices.push(current_index);
        rest = (rest - current_index) / dim_size;
        dim += 1;
    }
    assert(indices@ =~= coordinates(ncells@, index as int));
    indices
}

/// Returns the row-major index of the cell with the given coordinates.
pub fn get_index(ndims: usize, ncells: &[usize], indices: &[usize]) -> (index: usize)
    requires
        ndims == ncells.len(),
        ndims == indices.len(),
        forall|d: int| 0 <= d < ncells.len() ==> row_major(ncells@, indices@, d) <= usize::MAX,
    ensures
        index == row_major(ncells@, indices@, 0),
{
    let mut index: usize = 0;
    let mut dim: usize = ncells.len();
    while 0 < dim
        invariant
            dim <= ncells.len(),
            ncells.len() == indices.len(),
            forall|d: int| 0 <= d < ncells.len() ==> row_major(ncells@, indices@, d) <= usize::MAX,
            index == row_major(ncells@, indices@, dim as int),
        decreases dim,
    {
        dim -= 1;
        let dim_size: usize = ncells[dim];
        assert(row_major(ncells@, indices@, dim as int) == index * dim_size + indices[dim as int]);
        assert(0 <= index * dim_size) by (nonlinear_arith);
        index = index * dim_size;
        index = index + indices[dim];
    }
    index
}

/// Returns the indices of the two cells next to the given one along axis `dim`,
/// around the grid.
pub fn get_neighbour(ncells: &[usize], dim: usize, index: usize) -> (neighbour: Extrema<usize>)
    requires
        ncells.len() == NDIMS,
        forall|d: int| 0 <= d < ncells.len() ==> 0 < ncells[d],
        volume(ncells@) <= usize::MAX,
    ensures
        neighbour.min == row_major(
            ncells@,
            lowered(ncells@, coordinates(ncells@, index as int), dim as int),
            0,
        ),
        neighbour.max == row_major(
            ncells@,
            raised(ncells@, coordinates(ncells@, index as int), dim as int),
            0,
        ),
        neighbour.min < volume(ncells@),
        neighbour.max < volume(ncells@),
{
    let indices: Vec<usize> = get_indices(NDIMS, ncells, index);
    let ghost here = coordinates(ncells@, index as int);
    proof {
        assert forall|d: int| 0 <= d < ncells.len() implies (#[trigger] here[d]) < ncells[d] by {
            lemma_stride_positive(ncells@, d);
            vstd::arithmetic::div_mod::lemma_div_pos_is_pos(index as int, stride(ncells@, d));
            lemma_mod_pos_bound(index as int / stride(ncells@, d), ncells[d] as int);
        }
    }
    let mut m_indices: Vec<usize> = Vec::new();
    let mut p_indices: Vec<usize> = Vec::new();
    let mut d: usize = 0;
    while d < indices.len()
        invariant
            d <= indices.len(),
            indices@ == here,
            indices.len() == ncells.len(),
            forall|j: int| 0 <= j < ncells.len() ==> (#[trigger] here[j]) < ncells[j],
            m_indices@ == lowered(ncells@, here, dim as int).take(d as int),
            p_indices@ == raised(ncells@, here, dim as int).take(d as int),
        decreases indices.len() - d,
    {
        let i: usize = indices[d];
        assert(i == here[d as int]);
        if d == dim {
            m_indices.push(if 0 == i { ncells[d] - 1 } else { i - 1 });
            p_indices.push(if ncells[d] - 1 == i { 0 } else { i + 1 });
        } else {
            m_indices.push(i);
            p_indices.push(i);
        }
        d += 1;
        assert(m_indices@ =~= lowered(ncells@, here, dim as int).take(d as int));
        assert(p_indices@ =~= raised(ncells@, here, dim as int).take(d as int));
    }
    proof {
        let below = lowered(ncells@, here, dim as int);
        let above = raised(ncells@, here, dim as int);
        assert(m_indices@ =~= below);
        assert(p_indices@ =~= above);
        assert forall|d: int| 0 <= d <= ncells.len() implies row_major(ncells@, below, d)
            < volume(ncells@) && row_major(ncells@, above, d) < volume(ncells@) by {
            lemma_row_major_bound(ncells@, below, d);
            lemma_row_major_bound(ncells@, above, d);
        }
    }
    Extrema::<usize> {
        min: get_index(NDIMS, ncells, m_indices.as_slice()),
        max: get_index(NDIMS, ncells, p_indices.as_slice()),
    }
}

impl<P> Cell<P> {
    /// Makes the cell remember that particle `p` overlaps it.
    pub fn append(&mut self, p: usize)
        requires
            !old(self).particles@.contains(p),
        ensures
            final(self).particles@ == old(self).particles@.push(p),
            final(self).index == old(self).index,
            final(self).events@ == old(self).events@,
            final(self).positions == old(self).positions,
            final(self).neighbours == old(self).neighbours,
    {
        self.particles.push(p);
    }

    /// Makes the cell forget particle `p`.
    pub fn remove(&mut self, p: usize)
        requires
            old(self).particles@.contains(p),
        ensures
            final(self).particles@ == old(self).particles@.remove_value(p),
            final(self).index == old(self).index,
            final(self).events@ == old(self).events@,
            final(self).positions == old(self).positions,
            final(self).neighbours == old(self).neighbours,
    {
        let position: usize = find(&self.particles, p).unwrap();
        self.particles.remove(position);
    }

    /// Whether two cells agree in everything but their pending events.
    pub open spec fn same_place(&self, other: &Cell<P>) -> bool {
        &&& self.index == other.index
        &&& self.particles@ == other.particles@
        &&& self.positions == other.positions
        &&& self.neighbours == other.neighbours
    }
}

/// The cell count along an axis on which `size` cells of the reference size fit: at
/// least three, so that the two neighbours of a cell differ from it and from each
/// other.
pub open spec fn cell_count(size: usize) -> usize {
    if size < 3 {
        3
    } else {
        size
    }
}

/// Whether `cell` has the index, the edge classes and the neighbours of the cell
/// with the given row-major index in a grid with the given counts per axis.
pub open spec fn laid_out<P>(cell: Cell<P>, ncells: Seq<usize>, index: int) -> bool {
    &&& cell.index == index
    &&& forall|d: int|
        0 <= d < NDIMS ==> #[trigger] cell.positions[d] == edge_class(
            ncells[d],
            coordinates(ncells, index)[d],
        )
    &&& forall|d: int|
        0 <= d < NDIMS ==> (#[trigger] cell.neighbours[d]).min == row_major(
            ncells,
            lowered(ncells, coordinates(ncells, index), d),
            0,
        ) && cell.neighbours[d].max == row_major(
            ncells,
            raised(ncells, coordinates(ncells, index), d),
            0,
        ) && cell.neighbours[d].min < volume(ncells) && cell.neighbours[d].max < volume(ncells)
}

/// Whether `cell` is the cell of the given index in an empty grid with the given
/// counts per axis.
pub open spec fn fresh_cell<P>(cell: Cell<P>, ncells: Seq<usize>, index: int) -> bool {
    &&& laid_out(cell, ncells, index)
    &&& cell.particles@.len() == 0
    &&& cell.events@.len() == 0
}

/// Whether the cells are those of a grid with the given counts per axis.
pub open spec fn gridded<P>(cells: Seq<Cell<P>>, ncells: Seq<usize>) -> bool {
    &&& ncells.len() == NDIMS
    &&& cells.len() == volume(ncells)
    &&& forall|c: int| 0 <= c < cells.len() ==> laid_out(#[trigger] cells[c], ncells, c)
}

/// In a grid with at least three cells along each axis the two neighbours of a cell
/// along an axis differ from the cell and from each other, and the cell is the
/// neighbour above of its neighbour below, and the neighbour below of its
/// neighbour above.
pub proof fn lemma_gridded_neighbours<P>(cells: Seq<Cell<P>>, ncells: Seq<usize>, c: int, d: int)
    requires
        gridded(cells, ncells),
        forall|j: int| 0 <= j < NDIMS ==> 3 <= ncells[j],
        0 <= c < cells.len(),
        0 <= d < NDIMS,
    ensures
        cells[c].neighbours[d].min != c,
        cells[c].neighbours[d].max != c,
        cells[c].neighbours[d].min != cells[c].neighbours[d].max,
        cells[cells[c].neighbours[d].min as int].neighbours[d].max == c,
        cells[cells[c].neighbours[d].max as int].neighbours[d].min == c,
{
    lemma_neighbours(ncells, c, d);
    assert(laid_out(cells[c], ncells, c));
    let below = cells[c].neighbours[d].min as int;
    let above = cells[c].neighbours[d].max as int;
    assert(laid_out(cells[below], ncells, below));
    assert(laid_out(cells[above], ncells, above));
}

/// Cells that keep their indices, edge classes and neighbours stay those of the grid.
pub proof fn lemma_gridded_kept<P>(before: Seq<Cell<P>>, after: Seq<Cell<P>>, ncells: Seq<usize>)
    requires
        gridded(before, ncells),
        same_grid(before, after),
    ensures
        gridded(after, ncells),
{
    assert forall|c: int| 0 <= c < after.len() implies laid_out(#[trigger] after[c], ncells, c) by {
        assert(laid_out(before[c], ncells, c));
        assert forall|d: int| 0 <= d < NDIMS implies #[trigger] after[c].positions[d]
            == edge_class(ncells[d], coordinates(ncells, c)[d]) by {
            assert(before[c].positions[d] == edge_class(ncells[d], coordinates(ncells, c)[d]));
        }
        assert forall|d: int| 0 <= d < NDIMS implies (#[trigger] after[c].neighbours[d]).min
            == before[c].neighbours[d].min && after[c].neighbours[d].max
            == before[c].neighbours[d].max by {}
    }
}

/// Builds the empty grid for a box on whose axes `sizes` cells of the reference size
/// fit. Returns the cell counts per axis and the cells in row-major order.
pub fn init_cells<P>(sizes: &[usize; NDIMS]) -> (grid: ([usize; NDIMS], Vec<Cell<P>>))
    requires
        cell_count(sizes[0]) * cell_count(sizes[1]) <= usize::MAX,
    ensures
        grid.0@ == sizes@.map_values(|size: usize| cell_count(size)),
        grid.1.len() == volume(grid.0@),
        forall|c: int| 0 <= c < grid.1.len() ==> fresh_cell(#[trigger] grid.1[c], grid.0@, c),
{
    // require at least three cells for each direction
    let ncells: [usize; NDIMS] = {
        let mut ncells = Vec::<usize>::with_capacity(NDIMS);
        let mut dim: usize = 0;
        while dim < NDIMS
            invariant
                dim <= NDIMS,
                ncells@ == sizes@.map_values(|size: usize| cell_count(size)).take(dim as int),
            decreases NDIMS - dim,
        {
            ncells.push(if sizes[dim] < 3 { 3 } else { sizes[dim] });
            dim += 1;
            assert(ncells@ =~= sizes@.map_values(|size: usize| cell_count(size)).take(dim as int));
        }
        assert(ncells@ =~= sizes@.map_values(|size: usize| cell_count(size)));
        vec_to_array(ncells)
    };
    proof {
        reveal_with_fuel(stride, 3);
        assert(ncells@[0] == cell_count(sizes[0]));
        assert(ncells@[1] == cell_count(sizes[1]));
        assert(volume(ncells@) == 1 * ncells[0] * ncells[1]);
        assert(1 * ncells[0] * ncells[1] == cell_count(sizes[0]) * cell_count(sizes[1]))
            by (nonlinear_arith)
            requires
                ncells[0] == cell_count(sizes[0]),
                ncells[1] == cell_count(sizes[1]),
        ;
    }
    let total: usize = ncells[0] * ncells[1];
    // create cells
    let mut cells = Vec::<Cell<P>>::new();
    let mut n: usize = 0;
    while n < total
        invariant
            n <= total,
            total == volume(ncells@),
            ncells@.len() == NDIMS,
            forall|d: int| 0 <= d < NDIMS ==> 0 < #[trigger] ncells[d],
            cells.len() == n,
            forall|c: int| 0 <= c < n ==> fresh_cell(#[trigger] cells[c], ncells@, c),
        decreases total - n,
    {
        let indices: [usize; NDIMS] = vec_to_array(get_indices(NDIMS, ncells.as_slice(), n));
        let particles = Vec::<usize>::new();
        let events = Vec::<Event<P>>::new();
        let positions: [CellPosition; NDIMS] = {
            let mut positions = Vec::<CellPosition>::with_capacity(NDIMS);
            let mut dim: usize = 0;
            while dim < NDIMS
                invariant
                    dim <= NDIMS,
                    ncells@.len() == NDIMS,
                    forall|d: int| 0 <= d < NDIMS ==> 0 < #[trigger] ncells[d],
                    positions.len() == dim,
                    forall|d: int|
                        0 <= d < dim ==> #[trigger] positions[d] == edge_class(
                            ncells[d],
                            indices[d],
                        ),
                decreases NDIMS - dim,
            {
                positions.push(
                    if 0 == indices[dim] {
                        CellPosition::NegativeEdge
                    } else if ncells[dim] - 1 == indices[dim] {
                        CellPosition::PositiveEdge
                    } else {
                        CellPosition::Centre
                    },
                );
                dim += 1;
            }
            vec_to_array(positions)
        };
        let neighbours: [Extrema<usize>; NDIMS] = {
            let mut neighbours = Vec::<Extrema<usize>>::with_capacity(NDIMS);
            let mut dim: usize = 0;
            while dim < NDIMS
                invariant
                    dim <= NDIMS,
                    ncells@.len() == NDIMS,
                    forall|d: int| 0 <= d < NDIMS ==> 0 < #[trigger] ncells[d],
                    total == volume(ncells@),
                    neighbours.len() == dim,
                    forall|d: int|
                        0 <= d < dim ==> (#[trigger] neighbours[d]).min == row_major(
                            ncells@,
                            lowered(ncells@, coordinates(ncells@, n as int), d),
                            0,
                        ) && neighbours[d].max == row_major(
                            ncells@,
                            raised(ncells@, coordinates(ncells@, n as int), d),
                            0,
                        ) && neighbours[d].min < total && neighbours[d].max < total,
                decreases NDIMS - dim,
            {
                neighbours.push(get_neighbour(ncells.as_slice(), dim, n));
                dim += 1;
            }
            vec_to_array::<Extrema<usize>>(neighbours)
        };
        let cell = Cell { index: n, particles, events, positions, neighbours };
        cells.push(cell);
        n += 1;
    }
    (ncells, cells)
}

/// Whether two lists of cells describe one grid: the same indices, edge classes and
/// neighbours.
pub open spec fn same_grid<P>(before: Seq<Cell<P>>, after: Seq<Cell<P>>) -> bool {
    &&& after.len() == before.len()
    &&& forall|i: int|
        0 <= i < before.len() ==> (#[trigger] after[i]).index == before[i].index
            && after[i].positions == before[i].positions && after[i].neighbours
            == before[i].neighbours
}

/// Whether `after` is `before` with the pending events of cell `c` replaced by `events`.
pub open spec fn events_replaced<P>(
    before: Seq<Cell<P>>,
    after: Seq<Cell<P>>,
    c: int,
    events: Seq<Event<P>>,
) -> bool {
    &&& after.len() == before.len()
    &&& forall|i: int|
        0 <= i < before.len() ==> (#[trigger] after[i]).same_place(&before[i]) && after[i].events@
            == if i == c {
            events
        } else {
            before[i].events@
        }
}

} // verus!
