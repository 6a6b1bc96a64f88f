use vstd::prelude::*;
use std::ops::Range;

verus! {

/// A mapped span of GPU memory: the address its first byte is mapped at, and the byte range
/// of the buffer that is mapped.
pub struct MappedRange {
    addr: usize,
    range: Range<u64>,
}

impl MappedRange {
    /// The address the start of the range is mapped at.
    pub closed spec fn base(&self) -> nat {
        self.addr as nat
    }

    /// The first mapped byte of the buffer.
    pub closed spec fn start(&self) -> nat {
        self.range.start as nat
    }

    /// One past the last mapped byte of the buffer.
    pub closed spec fn end(&self) -> nat {
        self.range.end as nat
    }

    /// A mapping of `range` at address `addr`.
    pub fn new(addr: usize, range: &Range<u64>) -> (r: Self)
        ensures
            r.base() == addr,
            r.start() == range.start,
            r.end() == range.end,
    {
        Self { addr, range: Range { start: range.start, end: range.end } }
    }

    /// Whether `range` lies within the mapped range.
    pub fn contains(&self, range: &Range<u64>) -> (r: bool)
        ensures
            r == (self.start() <= range.start && self.end() >= range.end),
    {
        self.range.start <= range.start && self.range.end >= range.end
    }

    /// The mapping of `range`, which starts at or after the start of this one.
    pub fn subrange(&self, range: &Range<u64>) -> (r: Self)
        requires
            range.start >= self.start(),
            self.base() + (range.start - self.start()) <= usize::MAX,
        ensures
            r.base() == self.base() + (range.start - self.start()),
            r.start() == range.start,
            r.end() == range.end,
    {
        Self::new(self.subrange_ptr(range), range)
    }

    /// The address that `range.start` is mapped at.
    pub fn subrange_ptr(&self, range: &Range<u64>) -> (r: usize)
        requires
            range.start >= self.start(),
            self.base() + (range.start - self.start()) <= usize::MAX,
        ensures
            r == self.base() + (range.start - self.start()),
    {
        self.addr + (range.start - self.range.start) as usize
    }

    /// The number of mapped bytes.
    pub fn len(&self) -> (r: u64)
        requires
            self.start() <= self.end(),
        ensures
            r == self.end() - self.start(),
    {
        self.range.end - self.range.start
    }

    pub fn is_empty(&self) -> (r: bool)
        requires
            self.start() <= self.end(),
        ensures
            r == (self.end() == self.start()),
    {
        self.len() == 0
    }
}

} // verus!
