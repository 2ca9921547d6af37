//! What the composite hashes share: the error of a full hash list, and the reading position
//! of their decoders.
use vstd::prelude::*;

verus! {

/// Why a hash could not be inserted in a hash list.
#[derive(Debug, Clone, Copy, PartialEq, Eq)]
pub enum SaturationError {
    /// The list is full, but its hashes can still be cut down to fewer bits to make room.
    ExtendableSaturation,
    /// The list is full and its hashes are already as short as they get; the bit index at
    /// which the list ends.
    Saturation(u32),
}

/// A decoder of a hash list that knows how far it has read.
pub trait LastBufferedBit {
    /// The number of bits of the list read so far.
    fn last_buffered_bit(&self) -> u32;

    /// The number of bits of each hash of the list.
    fn hash_bits(&self) -> u8;
}

} // verus!
