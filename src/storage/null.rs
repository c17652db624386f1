use vstd::prelude::*;
use super::AnyStorage;

verus! {

/// A column for a component without data: it only counts its rows.
#[derive(Debug)]
pub struct NullStorage {
    len: usize,
}

impl NullStorage {
    pub closed spec fn rows(&self) -> nat {
        self.len as nat
    }

    pub fn new() -> (r: NullStorage)
        ensures
            r.rows() == 0,
    {
        NullStorage { len: 0 }
    }

    /// Adds a row.
    pub fn push(&mut self)
        requires
            old(self).rows() < usize::MAX,
        ensures
            final(self).rows() == old(self).rows() + 1,
    {
        self.len = self.len + 1;
    }

    /// Drops a row.
    pub fn swap_remove(&mut self, row: usize)
        requires
            row < old(self).rows(),
        ensures
            final(self).rows() == old(self).rows() - 1,
    {
        self.len = self.len - 1;
    }
}

impl AnyStorage for NullStorage {
    open spec fn row_count(&self) -> nat {
        self.rows()
    }

    fn len(&self) -> (r: usize) {
        self.len
    }
}

} // verus!
