use vstd::prelude::*;

verus! {

/// How the columns of a component type hold their values.
#[derive(Debug, Clone, Copy, PartialEq, Eq, Hash, Structural)]
pub enum StorageKind {
    /// One value per row, in a contiguous vector.
    Dense,
    /// A component without data: the column keeps only a row count.
    Unit,
}

/// The identity of a component type: a key chosen by the program and the storage the type asks for.
/// Two identifiers are the same type exactly when both parts are equal.
#[derive(Debug, Clone, Copy, PartialEq, Eq, Hash, Structural)]
pub struct ComponentId {
    pub key: u32,
    pub storage: StorageKind,
}

/// The row of an entity within its archetype.
#[derive(Debug, Clone, Copy, PartialEq, Eq, Hash, Structural)]
pub struct ComponentIndex(pub u32);

impl ComponentId {
    /// A component type with one stored value per entity.
    pub fn dense(key: u32) -> (r: ComponentId)
        ensures
            r == (ComponentId { key, storage: StorageKind::Dense }),
    {
        ComponentId { key, storage: StorageKind::Dense }
    }

    /// A component type that carries no data of its own.
    pub fn unit(key: u32) -> (r: ComponentId)
        ensures
            r == (ComponentId { key, storage: StorageKind::Unit }),
    {
        ComponentId { key, storage: StorageKind::Unit }
    }

    pub open spec fn is_dense(self) -> bool {
        self.storage == StorageKind::Dense
    }
}

} // verus!
