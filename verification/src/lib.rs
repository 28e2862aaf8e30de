//! An intent ledger with a FIFO settlement engine.
//!
//! An operator mints token balance equal to an externally authorized hold
//! (a pledge), holders move the token, and a reconciliation pass later
//! decides, pledge by pledge in mint order, how much of each hold is still
//! backed by on-chain balance (burned) and how much was spent (captured,
//! to be collected from the original authorization).

pub mod balance;
pub mod contract;
pub mod errors;
pub mod laws;
pub mod ledger;
pub mod pledge;
pub mod settle;
