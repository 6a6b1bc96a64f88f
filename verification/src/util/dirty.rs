use vstd::prelude::*;

verus! {

/// One access to a value that watches for mutation: a shared read, a hand-out for mutation, or
/// a `reset`.
#[derive(Clone, Copy, Debug, PartialEq, Eq, Structural)]
pub enum Access {
    Read,
    Write,
    Reset,
}

/// The dirty flag after access `a` to a value whose flag was `flag`: a read leaves it, a
/// hand-out for mutation sets it, a reset clears it.
pub open spec fn access_step(flag: bool, a: Access) -> bool {
    match a {
        Access::Read => flag,
        Access::Write => true,
        Access::Reset => false,
    }
}

/// The dirty flag of a value made with `new` and then accessed by `accesses`, in order, one
/// access after another as `access_step` says.
pub open spec fn flag_after(accesses: Seq<Access>) -> bool
    decreases accesses.len(),
{
    if accesses.len() == 0 {
        false
    } else {
        access_step(flag_after(accesses.drop_last()), accesses.last())
    }
}

/// No access of `accesses` after index `i` is a reset.
pub open spec fn no_reset_after(accesses: Seq<Access>, i: int) -> bool {
    forall|j: int| i < j < accesses.len() ==> #[trigger] accesses[j] != Access::Reset
}

/// Some access of `accesses` hands the value out for mutation, and no reset comes after it.
pub open spec fn written_since_reset(accesses: Seq<Access>) -> bool {
    exists|i: int|
        0 <= i < accesses.len() && #[trigger] accesses[i] == Access::Write && no_reset_after(accesses, i)
}

proof fn lemma_written_after_read(accesses: Seq<Access>)
    requires
        accesses.len() > 0,
        accesses.last() == Access::Read,
    ensures
        written_since_reset(accesses) == written_since_reset(accesses.drop_last()),
{
    let p = accesses.drop_last();
    let n = accesses.len() - 1;
    if written_since_reset(p) {
        let i = choose|i: int| 0 <= i < p.len() && #[trigger] p[i] == Access::Write && no_reset_after(p, i);
        assert(accesses[i] == p[i]);
        assert forall|j: int| i < j < accesses.len() implies #[trigger] accesses[j] != Access::Reset by {
            if j < n {
                assert(accesses[j] == p[j]);
            }
        }
    }
    if written_since_reset(accesses) {
        let i = choose|i: int|
            0 <= i < accesses.len() && #[trigger] accesses[i] == Access::Write && no_reset_after(accesses, i);
        assert(i != n);
        assert(p[i] == accesses[i]);
        assert forall|j: int| i < j < p.len() implies #[trigger] p[j] != Access::Reset by {
            assert(accesses[j] == p[j]);
        }
    }
}

proof fn lemma_not_written_after_reset(accesses: Seq<Access>)
    requires
        accesses.len() > 0,
        accesses.last() == Access::Reset,
    ensures
        !written_since_reset(accesses),
{
    let n = accesses.len() - 1;
    if written_since_reset(accesses) {
        let i = choose|i: int|
            0 <= i < accesses.len() && #[trigger] accesses[i] == Access::Write && no_reset_after(accesses, i);
        if i < n {
            assert(accesses[n] != Access::Reset);
        }
    }
}

proof fn lemma_written_after_write(accesses: Seq<Access>)
    requires
        accesses.len() > 0,
        accesses.last() == Access::Write,
    ensures
        written_since_reset(accesses),
{
    let n = accesses.len() - 1;
    assert(accesses[n] == Access::Write);
    assert(no_reset_after(accesses, n));
}

/// A value is dirty exactly when it was handed out for mutation after it was made and after its
/// last reset: a fresh value is clean, and shared reads never make it dirty.
pub proof fn lemma_dirty_iff_written_since_reset(accesses: Seq<Access>)
    ensures
        flag_after(accesses) == written_since_reset(accesses),
    decreases accesses.len(),
{
    if accesses.len() > 0 {
        lemma_dirty_iff_written_since_reset(accesses.drop_last());
        match accesses.last() {
            Access::Write => lemma_written_after_write(accesses),
            Access::Reset => lemma_not_written_after_reset(accesses),
            Access::Read => lemma_written_after_read(accesses),
        }
    }
}

/// A value that remembers whether it was handed out for mutation since the last `reset`.
#[derive(Clone)]
pub struct Dirty<T> {
    data: T,
    dirty: bool,
}

impl<T> Dirty<T> {
    /// The wrapped value.
    pub closed spec fn value(&self) -> T {
        self.data
    }

    /// Whether the value was handed out for mutation since the last `reset`.
    pub closed spec fn flag(&self) -> bool {
        self.dirty
    }

    pub fn new(data: T) -> (r: Self)
        ensures
            r.value() == data,
            !r.flag(),
            r.flag() == flag_after(Seq::empty()),
    {
        Self { data, dirty: false }
    }

    pub fn is_dirty(&self) -> (r: bool)
        ensures
            r == self.flag(),
    {
        self.dirty
    }

    pub fn reset(&mut self)
        ensures
            final(self).value() == old(self).value(),
            !final(self).flag(),
            final(self).flag() == access_step(old(self).flag(), Access::Reset),
    {
        self.dirty = false;
    }

    /// The value, to read.
    pub fn get(&self) -> (r: &T)
        ensures
            *r == self.value(),
            self.flag() == access_step(self.flag(), Access::Read),
    {
        &self.data
    }

    /// The value, to change; marks it dirty.
    pub fn get_mut(&mut self) -> (r: &mut T)
        ensures
            *r == old(self).value(),
            final(self).value() == *final(r),
            final(self).flag(),
            final(self).flag() == access_step(old(self).flag(), Access::Write),
    {
        self.dirty = true;
        &mut self.data
    }
}

} // verus!
