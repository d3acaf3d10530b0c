//! Detection-and-control core of an on-device automation engine: pixel and
//! template matching on captured frames, accessibility-tree snapshots with
//! selectors, touch-gesture synthesis and a cooperative run/stop token.

pub mod activity;
pub mod color;
pub mod find;
pub mod geometry;
pub mod gesture;
pub mod node;
pub mod screenshot;
pub mod status;

use vstd::prelude::*;

verus! {

/// Adds two counts.
pub fn add(left: usize, right: usize) -> (r: usize)
    requires
        left + right <= usize::MAX,
    ensures
        r == left + right,
{
    left + right
}

} // verus!
