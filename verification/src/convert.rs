//! Currency conversion adapter: a fixed sentinel rule in front of the
//! registry-backed id <-> location mapping.
//!
//! Id `0` always denotes the coordinator chain's native asset and converts to
//! and from the fixed parent location, whatever the registry holds. Every
//! other id defers to the registry. Absence of a mapping is advisory, never a
//! fault: it means "this asset cannot be expressed cross-chain".

use vstd::prelude::*;

use crate::location::Location;
use crate::registry::Registry;
use crate::Balance;
use crate::CurrencyId;

verus! {

/// A quantity of a specific asset, by kind.
pub enum FundedAsset {
    /// A fungible amount of the asset at a concrete location.
    Fungible(Location, Balance),
    /// One non-fungible instance, by its index, at a concrete location.
    NonFungible(Location, u64),
    /// A quantity of an asset named only by an abstract tag.
    Abstract(Vec<u8>, Balance),
}

/// Converter between chain-local currency ids and network-wide locations.
pub struct CurrencyIdConvert;

impl CurrencyIdConvert {
    /// Forward conversion. The sentinel id resolves to the parent location;
    /// any other id defers to the registry. A registered id whose metadata
    /// carries no location deliberately falls back to the empty location
    /// rather than reporting "no mapping"; only an unregistered id yields
    /// `None`.
    pub open spec fn spec_convert_id(reg: Registry, id: CurrencyId) -> Option<Location> {
        if id == 0 {
            Some(Location::parent_spec())
        } else {
            match reg.spec_metadata_of(id) {
                Some(m) => match m.location {
                    Some(loc) => Some(loc),
                    None => Some(Location::here_spec()),
                },
                None => None,
            }
        }
    }

    /// Reverse conversion. The parent location resolves to the sentinel id;
    /// any other location defers to the reverse registry lookup.
    pub open spec fn spec_convert_location(reg: Registry, loc: Location) -> Option<CurrencyId> {
        if loc == Location::parent_spec() {
            Some(0)
        } else {
            reg.spec_id_of(loc)
        }
    }

    /// Conversion from a funded asset: defined only for the fungible kind,
    /// which carries a concrete location; every other kind is a non-match.
    pub open spec fn spec_convert_asset(reg: Registry, asset: FundedAsset) -> Option<CurrencyId> {
        match asset {
            FundedAsset::Fungible(loc, _) => Self::spec_convert_location(reg, loc),
            FundedAsset::NonFungible(_, _) => None,
            FundedAsset::Abstract(_, _) => None,
        }
    }

    /// Resolves a chain-local id to a network-wide location.
    pub fn convert_id(reg: &Registry, id: CurrencyId) -> (r: Option<Location>)
        ensures
            r == Self::spec_convert_id(*reg, id),
            id == 0 ==> r == Some(Location::parent_spec()),
    {
        if id == 0 {
            return Some(Location::parent());
        }
        match reg.metadata_of(id) {
            Some(m) => match m.location {
                Some(loc) => Some(loc),
                // Deliberate fallback: registered metadata without a location
                // resolves to the empty location, not to "no mapping".
                None => Some(Location::here()),
            },
            None => None,
        }
    }

    /// Resolves a network-wide location to a chain-local id.
    pub fn convert_location(reg: &Registry, loc: &Location) -> (r: Option<CurrencyId>)
        ensures
            r == Self::spec_convert_location(*reg, *loc),
            *loc == Location::parent_spec() ==> r == Some(0u32),
    {
        if *loc == Location::parent() {
            return Some(0);
        }
        reg.id_of(loc)
    }

    /// Resolves a funded asset to a chain-local id, for the fungible kind
    /// with a concrete location only.
    pub fn convert_asset(reg: &Registry, asset: &FundedAsset) -> (r: Option<CurrencyId>)
        ensures
            r == Self::spec_convert_asset(*reg, *asset),
    {
        match asset {
            FundedAsset::Fungible(loc, _) => Self::convert_location(reg, loc),
            FundedAsset::NonFungible(_, _) => None,
            FundedAsset::Abstract(_, _) => None,
        }
    }
}

/// Sentinel stability: whatever the registry holds, the sentinel id converts
/// to the parent location and the parent location converts back to the
/// sentinel id.
pub proof fn lemma_sentinel_stability(reg: Registry)
    ensures
        CurrencyIdConvert::spec_convert_id(reg, 0) == Some(Location::parent_spec()),
        CurrencyIdConvert::spec_convert_location(reg, Location::parent_spec()) == Some(0u32),
{
}

} // verus!
