use vstd::prelude::*;

verus! {

/// Why an operation on a ledger or on the registry was refused.
#[derive(Clone, Copy, Debug, PartialEq, Eq, Structural)]
pub enum LedgerError {
    /// An unknown ledger name, sequence id or rule id.
    NotFound,
    /// The ledger name is already registered.
    AlreadyExists,
    /// A weekday index outside 1..=7, or an unknown schedule kind.
    InvalidSchedule,
    /// The value cannot be stored: it leaves the range of the stored integers,
    /// or the stored state breaks the ledger's invariant.
    StorageError,
    /// A lock wait limit of the storage engine was hit.
    ConcurrencyTimeout,
}

} // verus!
