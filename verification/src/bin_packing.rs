//! The interface of the bin packers: items are packed one by one into bins
//! of unit capacity.

use vstd::prelude::*;

verus! {

/// Why an item was not packed.
#[derive(Debug, Copy, Clone, PartialEq, Eq, Structural)]
pub enum PackError {
    /// The item's size is not in `[0, 1]`.
    InvalidSize,
}

/// A packer of items of type `T`.
pub trait Packer<T> {
    /// Packs `item` into a bin, or refuses it.
    fn pack(&mut self, item: T) -> Result<(), PackError>;

    /// Number of bins in use.
    fn no_bins(&self) -> usize;
}

} // verus!
