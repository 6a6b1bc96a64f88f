use vstd::prelude::*;
use crate::util::dirty::{access_step, flag_after, Access};

verus! {

/// A value that watches whether it was handed out for mutation since the last `reset`.
#[derive(Clone)]
pub struct Watched<T> {
    data: T,
    dirty: bool,
}

impl<T> Watched<T> {
    /// The wrapped value.
    pub closed spec fn value(&self) -> T {
        self.data
    }

    /// Whether the value was handed out for mutation since the last `reset`.
    pub closed spec fn flag(&self) -> bool {
        self.dirty
    }

    pub fn new(data: T) -> (r: Self)
        ensures
            r.value() == data,
            !r.flag(),
            r.flag() == flag_after(Seq::empty()),
    {
        Self { data, dirty: false }
    }

    pub fn is_dirty(&self) -> (r: bool)
        ensures
            r == self.flag(),
    {
        self.dirty
    }

    pub fn reset(&mut self)
        ensures
            final(self).value() == old(self).value(),
            !final(self).flag(),
            final(self).flag() == access_step(old(self).flag(), Access::Reset),
    {
        self.dirty = false;
    }

    /// The value, to read.
    pub fn get(&self) -> (r: &T)
        ensures
            *r == self.value(),
            self.flag() == access_step(self.flag(), Access::Read),
    {
        &self.data
    }

    /// The value, to change; marks it dirty.
    pub fn get_mut(&mut self) -> (r: &mut T)
        ensures
            *r == old(self).value(),
            final(self).value() == *final(r),
            final(self).flag(),
            final(self).flag() == access_step(old(self).flag(), Access::Write),
    {
        self.dirty = true;
        &mut self.data
    }
}

} // verus!
