//! The transient envelope around records that are built but not yet
//! persisted, and the locking capability surface of the data model.

use vstd::prelude::*;

use crate::error::IpamError;

verus! {

/// How a freshly constructed record is meant to reach the store: as a node
/// of its own (`DEFAULT`), or folded into the second description slot of its
/// parent (`UPDATE_PARENT_DESCRIPTIONS`), which happens when a subdivision's
/// first child starts at the parent's own base address.
#[allow(non_camel_case_types)]
#[derive(Clone, Copy, Debug, PartialEq, Eq, Structural)]
pub enum SelectionOperation {
    UPDATE_PARENT_DESCRIPTIONS,
    DEFAULT,
}

/// A constructed record together with persistence metadata.  `saved` flips
/// to true exactly when a write succeeds; the envelope itself is never
/// persisted.
#[allow(non_camel_case_types)]
#[derive(Clone, Copy, Debug)]
pub struct Selection<RECORD_TYPE> {
    pub actual: RECORD_TYPE,
    pub selected_prefix_length: Option<u8>,
    pub saved: bool,
    pub operation: SelectionOperation,
}

/// Locking operations of the data model.  The bootstrap path never locks;
/// apart from the stored `locked` flag these are unrealised extension points
/// that report `Unimplemented`.
#[allow(non_camel_case_types)]
pub trait locking_operations {
    fn lock(&self) -> Result<bool, IpamError>;

    fn unlock(&self) -> Result<bool, IpamError>;

    fn is_locked(&self) -> Result<bool, IpamError>;
}

} // verus!
