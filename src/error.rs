//! Why an operation was rejected.
use vstd::prelude::*;

verus! {

/// Why an operation was rejected; a rejected operation changes nothing.
#[derive(Debug, Clone, Copy, PartialEq, Eq, Structural)]
pub enum ContractError {
    /// The caller lacks the required role.
    Unauthorized,
    /// A required field is empty.
    InvalidInput,
    /// The series id does not resolve.
    NotFound,
    /// The series has minted its whole supply.
    SupplyExhausted,
    /// The caller already holds a ship.
    AlreadyOwnsAsset,
    /// The attached payment is below the mint price.
    InsufficientPayment,
    /// Not `<digits>` or `<digits>.<digits>`, more fractional digits than
    /// the unit scale, or a value beyond `u128`.
    InvalidAmount,
}

} // verus!
