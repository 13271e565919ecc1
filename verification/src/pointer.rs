//! Record pointers: where one encoded record lies on disk.

use vstd::prelude::*;

verus! {

/// The place of one encoded record: `len` bytes starting at byte `pos` of the
/// log of generation `gen`.
#[derive(Clone, Copy, Debug, PartialEq, Eq, Structural)]
pub struct Pointer {
    pub gen: u64,
    pub pos: u64,
    pub len: u64,
}

impl Pointer {
    /// The offset just past the record's last byte.
    pub open spec fn end(self) -> int {
        self.pos + self.len
    }

    /// A pointer to `len` bytes at `pos` in generation `gen`.
    pub fn new(gen: u64, pos: u64, len: u64) -> (p: Pointer)
        ensures
            p == (Pointer { gen, pos, len }),
    {
        Pointer { gen, pos, len }
    }

    /// A pointer to the byte range `[start, end)` of generation `gen`.
    pub fn from_range(gen: u64, start: u64, end: u64) -> (p: Pointer)
        requires
            start <= end,
        ensures
            p == (Pointer { gen, pos: start, len: (end - start) as u64 }),
            p.end() == end,
    {
        Pointer { gen, pos: start, len: end - start }
    }
}

} // verus!
