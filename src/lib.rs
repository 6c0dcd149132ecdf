//! Hides a byte payload in the least-significant bits of an RGBA pixel
//! buffer, protected by Reed-Solomon block codes.
use vstd::prelude::*;

pub mod ecc;
pub mod layout;
pub mod spiral;
pub mod stego;

verus! {

/// What can make an encode or a decode fail.
#[derive(Debug, Clone, Copy, PartialEq, Eq, Structural)]
pub enum StegError {
    /// The carrier has too few pixels for the blocks to be laid out.
    InsufficientCapacity,
    /// A block holds more errors than its parity can correct.
    CorruptedBlock,
    /// The header decodes to a length that this carrier cannot hold.
    MalformedHeader,
}

} // verus!
