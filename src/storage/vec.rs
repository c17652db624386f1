use vstd::prelude::*;
use super::{AnyStorage, Storage};

verus! {

/// A column that keeps one value per row in a contiguous vector.
#[derive(Debug)]
pub struct VecStorage<V> {
    vec: Vec<V>,
}

impl<V> View for VecStorage<V> {
    type V = Seq<V>;

    closed spec fn view(&self) -> Seq<V> {
        self.vec@
    }
}

impl<V> VecStorage<V> {
    pub fn new() -> (r: VecStorage<V>)
        ensures
            r@ == Seq::<V>::empty(),
    {
        VecStorage { vec: Vec::new() }
    }

    /// The value of a row, for writing.
    pub fn get_mut(&mut self, row: usize) -> (r: &mut V)
        requires
            row < old(self)@.len(),
        ensures
            *r == old(self)@[row as int],
            final(self)@ == old(self)@.update(row as int, *final(r)),
    {
        &mut self.vec[row]
    }

    /// Replaces every value `v` by `f(v)`.
    pub fn update_all<F: Fn(V) -> V>(&mut self, f: F)
        where
            V: Copy,
        requires
            forall|v: V| #[trigger] f.requires((v,)),
        ensures
            final(self)@.len() == old(self)@.len(),
            forall|i: int| 0 <= i < old(self)@.len() ==> #[trigger] f.ensures((old(self)@[i],), final(self)@[i]),
    {
        let mut i: usize = 0;
        while i < self.vec.len()
            invariant
                forall|v: V| #[trigger] f.requires((v,)),
                self@.len() == old(self)@.len(),
                i <= self@.len(),
                forall|j: int| 0 <= j < i ==> #[trigger] f.ensures((old(self)@[j],), self@[j]),
                forall|j: int| i <= j < self@.len() ==> #[trigger] self@[j] == old(self)@[j],
            decreases self@.len() - i,
        {
            let v = self.vec[i];
            let w = f(v);
            self.vec.set(i, w);
            i += 1;
        }
    }
}

impl<V> AnyStorage for VecStorage<V> {
    open spec fn row_count(&self) -> nat {
        self@.len()
    }

    fn len(&self) -> (r: usize) {
        self.vec.len()
    }
}

impl<V> Storage<V> for VecStorage<V> {
    open spec fn values(&self) -> Seq<V> {
        self@
    }

    fn get(&self, row: usize) -> (r: Option<&V>) {
        if row < self.vec.len() {
            Some(&self.vec[row])
        } else {
            None
        }
    }

    fn push(&mut self, value: V) {
        self.vec.push(value);
    }

    fn set(&mut self, row: usize, value: V) {
        self.vec.set(row, value);
    }

    fn swap_remove(&mut self, row: usize) {
        let _ = self.vec.swap_remove(row);
    }

    proof fn lemma_row_count(&self) {
    }
}

} // verus!
