//! Cross-chain asset identity, verified.
//!
//! A network of loosely coupled chains needs a consistent way to name assets:
//! each chain keeps a registry mapping its local numeric handles to
//! network-wide location descriptors, a conversion adapter applies a fixed
//! sentinel rule in front of that registry, and a deterministic relay
//! orchestrator moves queued cross-chain messages between chain instances
//! until no queue has pending work.

pub mod chain;
pub mod convert;
pub mod location;
pub mod network;
pub mod registry;

use vstd::prelude::*;

verus! {

/// Chain-local numeric handle for an asset, unique within one registry.
pub type CurrencyId = u32;

/// Unsigned balance of an account in one asset.
pub type Balance = u128;

/// Account identity, shared by every chain of the simulated network.
pub type AccountId = u32;

/// Well-known account used by genesis endowments and scenarios.
pub const ALICE: AccountId = 0;

/// Well-known account used by scenarios.
pub const BOB: AccountId = 1;

/// Well-known account used by scenarios.
pub const CHARLIE: AccountId = 2;

} // verus!
