//! Bitonic sorting networks over slices whose length is a power of two.
//!
//! Three entry points of growing generality share one recursive shape:
//! [`first::sort`] orders `u32` values by a direction flag, [`second::sort`]
//! orders any `Ord` type and checks the length, and [`third::sort_by`] takes
//! the ordering as a comparator.
use vstd::prelude::*;

pub mod comparator;
pub mod first;
pub mod length;
pub mod network;
pub mod relation;
pub mod second;
pub mod slices;
pub mod third;

verus! {

/// The direction in which a sequence is to be ordered when no comparator is given.
#[derive(Debug, Clone, Copy, PartialEq, Eq)]
pub enum SortOrder {
    /// Non-decreasing: every element is at most its successor.
    Ascending,
    /// Non-increasing: every element is at least its successor.
    Descending,
}

impl SortOrder {
    /// Whether this is the ascending direction.
    pub open spec fn is_up(self) -> bool {
        self is Ascending
    }
}

/// Why a sort was refused.
#[derive(Debug, Clone, Copy, PartialEq, Eq)]
pub enum SortError {
    /// The sequence has this many elements, which is neither zero nor a power of two.
    InvalidLength(usize),
}

} // verus!
