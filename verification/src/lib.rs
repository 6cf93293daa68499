//! An IP address management (IPAM) core: it keeps a hierarchical partition of
//! IP address space as a tree of pools ("schema" records), materialises an
//! allocatable mirror of that tree ("scope" records), and persists both trees
//! in a transactional key/value store.
//!
//! The CIDR arithmetic (subdividing a block into an exact partition of child
//! blocks), the pool bootstrap algorithm, the record byte encoding and the
//! scope projection are verified; the key/value engine and the textual
//! address parser are outside collaborators reached through trusted wrappers.

pub mod block;
pub mod database;
pub mod encoding;
pub mod error;
pub mod interpolate;
pub mod model;
pub mod schema;
pub mod scope;
pub mod store;
pub mod util;
