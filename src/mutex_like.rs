use vstd::prelude::*;

verus! {

/// A cell shared between the tasks of one solver iteration, each of which works on its own
/// part of the tree.
///
/// Reading goes through `lock`; writing needs exclusive access (`get_mut`), so that no two
/// tasks can write the same data: each task writes to a buffer of its own, and the buffers
/// are combined when the tasks join.
pub struct MutexLike<T> {
    data: T,
}

/// Read access to the contents of a `MutexLike`, as handed out by `lock`.
pub struct MutexGuardLike<'a, T> {
    mutex: &'a MutexLike<T>,
}

impl<T> MutexLike<T> {
    /// What the cell holds.
    pub closed spec fn value(&self) -> T {
        self.data
    }

    /// Wraps `val`.
    pub fn new(val: T) -> (r: Self)
        ensures
            r.value() == val,
    {
        MutexLike { data: val }
    }

    /// Gives read access to the contents.
    pub fn lock(&self) -> (g: MutexGuardLike<'_, T>)
        ensures
            g.value() == self.value(),
    {
        MutexGuardLike { mutex: self }
    }

    /// Gives write access to the contents, through exclusive access to the cell.
    pub fn get_mut(&mut self) -> (r: &mut T)
        ensures
            *r == old(self).value(),
            final(self).value() == *final(r),
    {
        &mut self.data
    }

    /// Unwraps the contents.
    pub fn into_inner(self) -> (r: T)
        ensures
            r == self.value(),
    {
        self.data
    }
}

impl<'a, T> MutexGuardLike<'a, T> {
    /// What the locked cell holds.
    pub closed spec fn value(&self) -> T {
        self.mutex.data
    }

    /// The contents of the locked cell.
    pub fn get(&self) -> (r: &T)
        ensures
            *r == self.value(),
    {
        &self.mutex.data
    }
}

} // verus!
