use vstd::prelude::*;
use atomic_refcell::{AtomicRef, AtomicRefCell, AtomicRefMut, BorrowError, BorrowMutError};

verus! {

#[verifier::external_type_specification]
#[verifier::external_body]
#[verifier::reject_recursive_types(T)]
pub struct ExAtomicRefCell<T: ?Sized>(AtomicRefCell<T>);

#[verifier::external_type_specification]
#[verifier::external_body]
#[verifier::reject_recursive_types(T)]
pub struct ExAtomicRef<'b, T: ?Sized>(AtomicRef<'b, T>);

#[verifier::external_type_specification]
#[verifier::external_body]
#[verifier::reject_recursive_types(T)]
pub struct ExAtomicRefMut<'b, T: ?Sized + 'b>(AtomicRefMut<'b, T>);

#[verifier::external_type_specification]
#[verifier::external_body]
pub struct ExBorrowError(BorrowError);

#[verifier::external_type_specification]
#[verifier::external_body]
pub struct ExBorrowMutError(BorrowMutError);

/// Relies on `AtomicRefCell::new`: a cell holding `value`, borrowed by no one.
#[verifier::external_body]
fn new_cell<V>(value: V) -> AtomicRefCell<V> {
    AtomicRefCell::new(value)
}

/// Relies on `AtomicRefCell::into_inner`: the value the cell held.
#[verifier::external_body]
fn cell_into_inner<V>(cell: AtomicRefCell<V>) -> V {
    cell.into_inner()
}

/// Relies on `AtomicRefCell::try_borrow`: a shared borrow, refused while the value is
/// borrowed exclusively.
#[verifier::external_body]
fn try_borrow_cell<V>(cell: &AtomicRefCell<V>) -> Result<AtomicRef<'_, V>, BorrowError> {
    cell.try_borrow()
}

/// Relies on `AtomicRefCell::try_borrow_mut`: an exclusive borrow, refused while the
/// value is borrowed at all.
#[verifier::external_body]
fn try_borrow_mut_cell<V>(cell: &AtomicRefCell<V>) -> Result<AtomicRefMut<'_, V>, BorrowMutError> {
    cell.try_borrow_mut()
}

/// Singletons addressed by a key, each in a cell that checks shared and exclusive
/// borrows at run time.
#[verifier::reject_recursive_types(V)]
pub struct Resources<V> {
    keys: Vec<u32>,
    cells: Vec<AtomicRefCell<V>>,
}

impl<V> Resources<V> {
    /// The keys that hold a value, in the order they were first inserted.
    pub closed spec fn keys(&self) -> Seq<u32> {
        self.keys@
    }

    pub closed spec fn wf(&self) -> bool {
        &&& self.keys@.len() == self.cells@.len()
        &&& self.keys@.no_duplicates()
    }

    pub fn new() -> (r: Resources<V>)
        ensures
            r.wf(),
            r.keys() == Seq::<u32>::empty(),
    {
        Resources { keys: Vec::new(), cells: Vec::new() }
    }

    /// Where `key` sits, if it holds a value.
    fn position(&self, key: u32) -> (r: Option<usize>)
        requires
            self.wf(),
        ensures
            match r {
                Some(i) => i < self.keys().len() && self.keys()[i as int] == key,
                None => !self.keys().contains(key),
            },
    {
        let mut i: usize = 0;
        while i < self.keys.len()
            invariant
                i <= self.keys@.len(),
                forall|j: int| 0 <= j < i ==> self.keys@[j] != key,
            decreases self.keys@.len() - i,
        {
            if self.keys[i] == key {
                return Some(i);
            }
            i += 1;
        }
        None
    }

    pub fn contains(&self, key: u32) -> (r: bool)
        requires
            self.wf(),
        ensures
            r == self.keys().contains(key),
    {
        self.position(key).is_some()
    }

    /// Stores `value` under `key`, dropping the value stored there before.
    pub fn insert(&mut self, key: u32, value: V)
        requires
            old(self).wf(),
        ensures
            final(self).wf(),
            old(self).keys().contains(key) ==> final(self).keys() == old(self).keys(),
            !old(self).keys().contains(key) ==> final(self).keys() == old(self).keys().push(key),
    {
        match self.position(key) {
            Some(i) => {
                self.cells.set(i, new_cell(value));
            },
            None => {
                self.keys.push(key);
                self.cells.push(new_cell(value));
                proof {
                    assert forall|a: int, b: int| 0 <= a < b < self.keys@.len() implies self.keys@[a] != self.keys@[b] by {
                        if b == self.keys@.len() - 1 {
                            assert(old(self).keys@.contains(old(self).keys@[a]) || a >= old(self).keys@.len());
                        } else {
                            assert(old(self).keys@[a] != old(self).keys@[b]);
                        }
                    }
                }
            },
        }
    }

    /// Takes the value stored under `key` out of the store.
    pub fn remove(&mut self, key: u32) -> (r: Option<V>)
        requires
            old(self).wf(),
        ensures
            final(self).wf(),
            r is Some == old(self).keys().contains(key),
            !final(self).keys().contains(key),
            r is None ==> final(self).keys() == old(self).keys(),
            r is Some ==> exists|i: int|
                0 <= i < old(self).keys().len() && old(self).keys()[i] == key && final(self).keys() == old(self).keys().remove(i),
    {
        match self.position(key) {
            Some(i) => {
                let ghost before = self.keys@;
                let _ = self.keys.remove(i);
                let cell = self.cells.remove(i);
                proof {
                    assert forall|a: int, b: int| 0 <= a < b < self.keys@.len() implies self.keys@[a] != self.keys@[b] by {
                        let a2 = if a < i { a } else { a + 1 };
                        let b2 = if b < i { b } else { b + 1 };
                        assert(self.keys@[a] == before[a2]);
                        assert(self.keys@[b] == before[b2]);
                    }
                    assert forall|k: int| 0 <= k < self.keys@.len() implies self.keys@[k] != key by {
                        let k2 = if k < i { k } else { k + 1 };
                        assert(self.keys@[k] == before[k2]);
                        assert(before[k2] != before[i as int]);
                    }
                }
                Some(cell_into_inner(cell))
            },
            None => None,
        }
    }

    /// A shared borrow of the value under `key`, if there is one; the borrow itself is
    /// refused while the value is borrowed exclusively.
    pub fn try_get(&self, key: u32) -> (r: Option<Result<AtomicRef<'_, V>, BorrowError>>)
        requires
            self.wf(),
        ensures
            r is Some == self.keys().contains(key),
    {
        match self.position(key) {
            Some(i) => Some(try_borrow_cell(&self.cells[i])),
            None => None,
        }
    }

    /// An exclusive borrow of the value under `key`, if there is one; the borrow itself is
    /// refused while the value is borrowed at all.
    pub fn try_get_mut(&self, key: u32) -> (r: Option<Result<AtomicRefMut<'_, V>, BorrowMutError>>)
        requires
            self.wf(),
        ensures
            r is Some == self.keys().contains(key),
    {
        match self.position(key) {
            Some(i) => Some(try_borrow_mut_cell(&self.cells[i])),
            None => None,
        }
    }
}

} // verus!
