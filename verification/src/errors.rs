//! The typed errors that commands return.
//!
//! Every command validates all of its preconditions before any mutation; the
//! first violated one is returned and the state is left untouched.

use vstd::prelude::*;

verus! {

/// A command's reason for rejecting its input, leaving the state unchanged.
#[derive(Clone, Copy, PartialEq, Eq, Structural, Debug)]
pub enum CreditError {
    /// A score factor is malformed: zero value, weight outside `[1, 100]`,
    /// an empty factor list, or more factors than the configured maximum.
    InvalidFactor,
    /// A factor weight lies outside `[1, 100]`.
    InvalidFactorWeight,
    /// The computed score lies outside the configured `[min, max]` band.
    ScoreOutOfRange,
    /// No score record exists for the named principal.
    ScoreNotFound,
    /// No item with the given id exists.
    NotFound,
    /// The item is no longer pending; terminal states are final.
    StateConflict,
    /// The owner already holds the configured cap of items.
    CapacityError,
    /// The payment amount is below the configured minimum.
    AmountTooLow,
    /// The payment amount is above the configured maximum.
    AmountTooHigh,
    /// Only the payer or the payee of a payment may dispute it.
    InsufficientPermissions,
    /// A data source with this id is already registered.
    SourceExists,
    /// A named data source id is not registered.
    DataSourceNotFound,
    /// The source url does not start with `http://` or `https://`.
    InvalidDataSourceUrl,
    /// This principal is already registered as an oracle.
    OracleExists,
    /// This principal is not a registered oracle.
    OracleNotFound,
    /// An oracle may name at most the configured number of data sources.
    DataSourceLimitExceeded,
    /// The published payload fails the data type's format rule.
    InvalidDataFormat,
    /// No oracle request with the given id exists.
    RequestNotFound,
    /// The oracle request was already fulfilled or failed.
    RequestAlreadyFulfilled,
    /// The cross-ledger origin is not in the configured allow-list.
    UntrustedOrigin,
    /// A cross-ledger record's bytes do not parse, or fail its kind's
    /// structural validation.
    MalformedRecord,
}

} // verus!
