//! The error kinds that the library's fallible operations report.

use vstd::prelude::*;

verus! {

/// Every failure the core can surface.
///
/// - `ParseError`: malformed address or CIDR text, or an address/prefix pair
///   that does not denote a block (host bits set, prefix too long).
/// - `InvalidSubdivision`: a target prefix length incompatible with the
///   parent block.
/// - `RangeOverflow`: incrementing past the last address of the family.
/// - `MissingDescription`: a pool record without the sizing metadata needed
///   to rebuild its block.
/// - `PersistenceError`: a store write or read failed, or a stored value did
///   not decode.
/// - `TransactionStateError`: begin, commit or rollback called in a state
///   that does not admit it, or a transaction operation the engine refused.
/// - `ScopeInitError`: at least one pool record could not be mirrored into
///   the scope store.
/// - `Unimplemented`: an allocation or locking extension point that is not
///   yet realised.
#[derive(Clone, Copy, Debug, PartialEq, Eq, Structural)]
pub enum IpamError {
    ParseError,
    InvalidSubdivision,
    RangeOverflow,
    MissingDescription,
    PersistenceError,
    TransactionStateError,
    ScopeInitError,
    Unimplemented,
}

} // verus!
