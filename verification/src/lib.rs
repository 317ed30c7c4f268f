//! Fixed-length views and reserve-style splitting for contiguous buffers.
//!
//! A caller that owns a contiguous buffer (an array, a slice, a `Vec`) can
//! take a reference to exactly `N` of its elements as a fixed-length array
//! reference, partition it into disjoint fixed-length pieces, or peel
//! prefixes and suffixes off a shrinking handle while keeping the remainder
//! usable. Every operation is a bounds-checked, zero-copy view into the
//! caller's storage; the only error is a range that does not fit.

use vstd::prelude::*;

pub mod fixed;
pub mod reserve;

pub use fixed::{partition_fixed, partition_fixed_mut, take_fixed_view, take_fixed_view_mut};
pub use reserve::{
    reserve, reserve_fixed, reserve_fixed_mut, reserve_mut, reserve_tail, reserve_tail_fixed,
    reserve_tail_fixed_mut, reserve_tail_mut,
};

verus! {

/// The single error kind: a requested offset, length, or partition sum does
/// not fit within the source buffer's current length.
#[derive(Clone, Copy, PartialEq, Eq, Structural, Debug)]
pub struct OutOfBounds;

} // verus!
