//! State layer of a collectible spaceship ledger: a catalogue of limited
//! ship series, the ships minted against them, a one-ship-per-account
//! ownership index and a per-account score ledger.
//!
//! Token identity, transfer and approvals belong to the hosting token
//! standard; minting here decides and records, and hands back the request
//! that the host issues.

pub mod error;
pub mod amount;
pub mod table;
pub mod ship;
pub mod contract;
