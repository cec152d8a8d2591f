//! Error kinds raised by the engine.  A missing member on a read is a valid
//! empty result, never an error.

use vstd::prelude::*;

verus! {

/// Every way a state transition or a query of the engine can fail.  Any
/// failed transition leaves the engine exactly as it was: all-or-nothing.
#[derive(Clone, Copy, Debug, PartialEq, Eq, Structural)]
pub enum ContractError {
    /// The sender lacks the right to perform the action.
    Unauthorized,
    /// The preauthorization counter for the action is exhausted.
    NoPreauthsLeft,
    /// The hook address is already registered.
    HookAlreadyRegistered,
    /// The hook address is not registered.
    HookNotRegistered,
    /// The slasher address is already registered.
    SlasherAlreadyRegistered,
    /// The slasher address is not registered.
    SlasherNotRegistered,
    /// The address fails validation.
    InvalidAddress,
    /// The slashing portion lies outside the closed unit interval.
    InvalidPortion,
    /// The mixing-function parameters lie outside the function's domain.
    InvalidPoeParams,
    /// Applying the change would push the aggregate total past its capacity.
    TotalOverflow,
}

} // verus!
