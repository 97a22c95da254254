//! Deterministic core of a replicated credit-worthiness ledger.
//!
//! Every state transition here is a pure function of the explicit state, the
//! command arguments and the logical clock ("tick") supplied by the host, so
//! that independent replicas replaying the same command sequence reach
//! bit-identical states.

pub mod audit;
pub mod codec;
pub mod contract;
pub mod errors;
pub mod hashing;
pub mod identity;
pub mod interchange;
pub mod oracle;
pub mod payments;
pub mod registry;
pub mod score;
pub mod testing;
pub mod util;
