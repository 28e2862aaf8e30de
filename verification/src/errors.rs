//! The error taxonomy: every failing entry point reports one of these and
//! leaves the whole state unchanged.

use vstd::prelude::*;

verus! {

/// Why a call was rejected.
///
/// - `Unauthorized`: a mutating call came from someone other than the owner.
/// - `DuplicateIntent`: a mint reused a pledge identifier already recorded
///   for that account.
/// - `InsufficientBalance`: a transfer asked for more than the sender holds.
/// - `DestinationNotAllowed`: a transfer named a receiver outside the
///   allow-list (only the marketplace account may receive).
#[derive(Clone, Copy, Debug, PartialEq, Eq, Structural)]
pub enum Error {
    Unauthorized,
    DuplicateIntent,
    InsufficientBalance,
    DestinationNotAllowed,
}

} // verus!
