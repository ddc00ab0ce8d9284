use asset_registry::location::{Interior, Junction, Location};
use asset_registry::registry::{AssetMetadata, CustomMetadata, Registry, RegistryError};

fn meta(location: Option<Location>) -> AssetMetadata {
    AssetMetadata {
        decimals: 12,
        name: b"token".to_vec(),
        symbol: b"TOK".to_vec(),
        existential_deposit: 0,
        location,
        additional: CustomMetadata { fee_per_second: 1_000_000_000_000 },
    }
}

fn loc_on_chain(chain: u32, asset: u128) -> Location {
    Location {
        parents: 1,
        interior: Interior::X3(
            Junction::Parachain(chain),
            Junction::PalletInstance(50),
            Junction::GeneralIndex(asset),
        ),
    }
}

#[test]
fn empty_registry_resolves_nothing() {
    let reg = Registry::new();
    assert_eq!(reg.location_of(1), None);
    assert_eq!(reg.id_of(&loc_on_chain(4, 0)), None);
    assert!(!reg.contains_id(0));
    assert!(reg.metadata_of(7).is_none());
}

#[test]
fn register_then_round_trip() {
    let mut reg = Registry::new();
    let loc = loc_on_chain(4, 0);
    assert!(reg.register(1, meta(Some(loc))).is_ok());
    assert_eq!(reg.location_of(1), Some(loc));
    assert_eq!(reg.id_of(&loc), Some(1));
    // round trip both ways through the registry
    let found = reg.id_of(&reg.location_of(1).unwrap()).unwrap();
    assert_eq!(found, 1);
    let back = reg.location_of(reg.id_of(&loc).unwrap()).unwrap();
    assert_eq!(back, loc);
}

#[test]
fn duplicate_id_is_refused_and_nothing_changes() {
    let mut reg = Registry::new();
    let loc = loc_on_chain(4, 0);
    assert!(reg.register(1, meta(Some(loc))).is_ok());
    let other = loc_on_chain(5, 9);
    assert_eq!(reg.register(1, meta(Some(other))), Err(RegistryError::DuplicateId));
    assert_eq!(reg.location_of(1), Some(loc));
    assert_eq!(reg.id_of(&other), None);
}

#[test]
fn conflicting_location_is_refused_and_nothing_changes() {
    let mut reg = Registry::new();
    let loc = loc_on_chain(4, 0);
    assert!(reg.register(1, meta(Some(loc))).is_ok());
    assert_eq!(reg.register(2, meta(Some(loc))), Err(RegistryError::ConflictingLocation));
    assert_eq!(reg.id_of(&loc), Some(1));
    assert!(!reg.contains_id(2));
}

#[test]
fn registration_without_location_has_no_reverse_mapping() {
    let mut reg = Registry::new();
    assert!(reg.register(5, meta(None)).is_ok());
    assert!(reg.contains_id(5));
    assert_eq!(reg.location_of(5), None);
    // a second id without a location does not conflict
    assert!(reg.register(6, meta(None)).is_ok());
    assert!(reg.contains_id(6));
}

#[test]
fn metadata_is_stored_as_given() {
    let mut reg = Registry::new();
    let loc = loc_on_chain(4, 1);
    assert!(reg.register(3, meta(Some(loc))).is_ok());
    let m = reg.metadata_of(3).unwrap();
    assert_eq!(m.decimals, 12);
    assert_eq!(m.name, b"token".to_vec());
    assert_eq!(m.symbol, b"TOK".to_vec());
    assert_eq!(m.existential_deposit, 0);
    assert_eq!(m.location, Some(loc));
    assert_eq!(m.additional.fee_per_second, 1_000_000_000_000);
}

#[test]
fn two_ids_two_locations_stay_disjoint() {
    let mut reg = Registry::new();
    let la = loc_on_chain(4, 0);
    let lb = loc_on_chain(4, 1);
    assert!(reg.register(1, meta(Some(la))).is_ok());
    assert!(reg.register(2, meta(Some(lb))).is_ok());
    assert_eq!(reg.id_of(&la), Some(1));
    assert_eq!(reg.id_of(&lb), Some(2));
    assert_eq!(reg.location_of(1), Some(la));
    assert_eq!(reg.location_of(2), Some(lb));
}
