//! Consistency between the particles and the cells that hold them.

use vstd::prelude::*;
use crate::simulator::cell::Cell;
use crate::simulator::particle::{find, Particle};

verus! {

/// Whether particles and cells know of each other: each list names existing
/// items, none twice, and a cell lists a particle exactly if the particle lists
/// the cell.
pub open spec fn registered<P>(particles: Seq<Particle>, cells: Seq<Cell<P>>) -> bool {
    &&& forall|p: int|
        0 <= p < particles.len() ==> {
            &&& (#[trigger] particles[p]).index == p
            &&& particles[p].cells@.no_duplicates()
            &&& forall|k: int|
                0 <= k < particles[p].cells.len() ==> (#[trigger] particles[p].cells@[k])
                    < cells.len()
        }
    &&& forall|c: int|
        0 <= c < cells.len() ==> {
            &&& (#[trigger] cells[c]).index == c
            &&& cells[c].particles@.no_duplicates()
            &&& forall|k: int|
                0 <= k < cells[c].particles.len() ==> (#[trigger] cells[c].particles@[k])
                    < particles.len()
        }
    &&& forall|p: usize, c: usize|
        #![trigger cells[c as int].particles@.contains(p)]
        #![trigger particles[p as int].cells@.contains(c)]
        p < particles.len() && c < cells.len() ==> (cells[c as int].particles@.contains(p)
            <==> particles[p as int].cells@.contains(c))
}

/// Checks if the particle knows that it belongs to the cell, and the cell that it
/// holds the particle.
pub fn check_recognition<P>(p: &Particle, c0: &Cell<P>) -> (recognised: bool)
    ensures
        recognised == (c0.particles@.contains(p.index) && p.cells@.contains(c0.index)),
{
    find(&c0.particles, p.index).is_some() && find(&p.cells, c0.index).is_some()
}

/// Where particles and cells are registered with each other, a cell lists a particle
/// exactly if the particle lists the cell.
pub proof fn lemma_mutual_recognition<P>(
    particles: Seq<Particle>,
    cells: Seq<Cell<P>>,
    p: usize,
    c: usize,
)
    requires
        registered(particles, cells),
        p < particles.len(),
        c < cells.len(),
    ensures
        cells[c as int].particles@.contains(p) <==> particles[p as int].cells@.contains(c),
{
}

} // verus!
