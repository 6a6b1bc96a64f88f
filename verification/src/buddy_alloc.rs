use vstd::prelude::*;
use vstd::arithmetic::power2::pow2;
use crate::util::buddy_alloc::{
    alloc_result, alloc_lists, ceil_log2, initial_lists, lists_alloc, lists_dealloc, lists_new,
    lists_ok, lists_resize, lists_view, max_pow2, merge_lists, merge_ok, resized_lists,
};

verus! {

#[derive(Clone)]
pub struct BuddyAlloc {
    size: usize,
    /// 2^i -> [offsets]
    free_lists: Vec<Vec<usize>>,
}

impl View for BuddyAlloc {
    /// The size the allocator was made or resized with, and its free lists.
    type V = (nat, Seq<Seq<usize>>);

    closed spec fn view(&self) -> (nat, Seq<Seq<usize>>) {
        (self.size as nat, lists_view(self.free_lists@))
    }
}

impl BuddyAlloc {
    /// The free lists are well formed: aligned offsets whose blocks end within `usize`.
    pub open spec fn inv(&self) -> bool {
        lists_ok(self@.1)
    }

    /// An allocator for `size` bytes, rounded up to a power of two, all of it free.
    pub fn new(size: usize) -> (r: Self)
        requires
            size <= max_pow2(),
        ensures
            r.inv(),
            r@.0 == size,
            r@.1 == initial_lists(ceil_log2(size as nat)),
    {
        Self { size, free_lists: lists_new(size) }
    }

    /// `O(log N)`, where N is pool size
    /// non pow2 sizes are rounded up causing fragmentation
    /// finds smallest block that can contain size
    /// if block is bigger than size * 2, splits it
    /// returns usize::MAX when out of space
    pub fn allocate(&mut self, size: usize) -> (r: usize)
        requires
            old(self).inv(),
            size <= max_pow2(),
        ensures
            final(self).inv(),
            r == alloc_result(old(self)@.1, size as nat),
            final(self)@.1 == alloc_lists(old(self)@.1, size as nat),
            final(self)@.0 == old(self)@.0,
    {
        lists_alloc(&mut self.free_lists, size)
    }

    /// `O(log N)`, where `N` is allocations
    /// worst case `O(n)` where n is allocations
    pub fn dealloc(&mut self, offset: usize, size: usize)
        requires
            old(self).inv(),
            size <= max_pow2(),
            offset as nat % pow2(ceil_log2(size as nat)) == 0,
            offset + pow2(ceil_log2(size as nat)) <= usize::MAX,
            merge_ok(old(self)@.1, ceil_log2(size as nat), offset),
        ensures
            final(self).inv(),
            final(self)@.1 == merge_lists(old(self)@.1, ceil_log2(size as nat), offset),
            final(self)@.0 == old(self)@.0,
    {
        lists_dealloc(&mut self.free_lists, offset, size)
    }

    /// shrink and remove outside ranges
    /// or grow and add/extend free ranges
    pub fn resize(&mut self, new_size: usize)
        requires
            old(self).inv(),
            new_size <= max_pow2(),
        ensures
            final(self).inv(),
            final(self)@.0 == new_size,
            final(self)@.1 == resized_lists(old(self)@.1, ceil_log2(new_size as nat)),
    {
        self.size = new_size;
        lists_resize(&mut self.free_lists, new_size);
    }

    pub fn len(&self) -> (r: usize)
        ensures
            r == self@.0,
    {
        self.size
    }
}

} // verus!
