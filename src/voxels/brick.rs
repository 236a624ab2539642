use vstd::prelude::*;

verus! {

/// A small block of voxel data that can be copied freely.
pub trait Brick: Copy + Clone {

}

/// A 4x4x4 block of occupancy bits.
#[derive(Clone, Copy, PartialEq, PartialOrd)]
pub struct Brick64 {
    pub occupancy: u64,
}

impl Brick for Brick64 {

}

} // verus!
