//! The character-device interface that concrete devices implement.

use vstd::prelude::*;

verus! {

/// A byte-oriented device: reads fill the caller's buffer, writes
/// drain it; both report how many bytes moved, or nothing when the
/// request cannot be served.
pub trait CharDev {
    /// Reads up to `size` bytes into `buf`.
    fn read(&self, size: usize, buf: &mut Vec<u8>) -> Option<usize>;

    /// Writes up to `size` bytes from `buf`.
    fn write(&mut self, size: usize, buf: &Vec<u8>) -> Option<usize>;
}

} // verus!
