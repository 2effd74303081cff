//! A pair of a minimum and a maximum.

use vstd::prelude::*;

verus! {

/// Stores minimum and maximum data.
#[derive(Debug, PartialEq, Eq, Clone, Copy)]
pub struct Extrema<T> {
    pub min: T,
    pub max: T,
}

} // verus!
