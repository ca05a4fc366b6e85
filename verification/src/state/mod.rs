//! Intent table (and the durable grant ledger's replay).

pub mod intent;
pub mod ledger;
