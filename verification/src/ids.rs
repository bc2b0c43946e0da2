//! Identifiers shared by the storage layers, and the error type surfaced by
//! storage operations.

use vstd::prelude::*;

verus! {

/// Identifier of a container (one heap file backs one container).
pub type ContainerId = u16;

/// Identifier of a page within one heap file.
pub type PageId = u16;

/// Identifier of a slot within one page.
pub type SlotId = u16;

/// Identifies one stored value: the container, the page within its heap
/// file, and the slot within that page.
#[derive(Clone, Copy, Debug, PartialEq, Eq, Hash)]
pub struct ValueId {
    pub container_id: ContainerId,
    pub page_id: Option<PageId>,
    pub slot_id: Option<SlotId>,
}

impl ValueId {
    /// A value id naming only a container.
    pub fn new(container_id: ContainerId) -> (r: ValueId)
        ensures
            r.container_id == container_id,
            r.page_id is None,
            r.slot_id is None,
    {
        ValueId { container_id, page_id: None, slot_id: None }
    }
}

/// Transaction identifier. Accepted and threaded through the storage
/// interfaces; it has no semantic effect in this core.
#[derive(Clone, Copy, Debug, PartialEq, Eq, Hash)]
pub struct TransactionId {
    pub id: u64,
}

impl TransactionId {
    pub fn new() -> (r: TransactionId)
        ensures
            r.id == 0,
    {
        TransactionId { id: 0 }
    }
}

/// Permission flags. Accepted and threaded through the storage interfaces;
/// they have no semantic effect in this core.
#[derive(Clone, Copy, Debug, PartialEq, Eq)]
pub enum Permissions {
    ReadOnly,
    ReadWrite,
}

/// Kind of state a container holds.
#[derive(Clone, Copy, Debug, PartialEq, Eq)]
pub enum StateType {
    BaseTable,
    MatView,
}

/// Error surfaced by storage operations.
#[derive(Clone, Copy, Debug, PartialEq, Eq)]
pub enum CrustyError {
    /// The named container is not present in the storage manager's map.
    ContainerNotFound,
    /// No page with the requested logical id exists in the heap file.
    PageNotFound,
    /// No live value occupies the requested slot.
    ValueNotFound,
    /// A byte buffer does not decode as a well-formed page or sidecar.
    InvalidData,
}

} // verus!
