use asset_registry::convert::{CurrencyIdConvert, FundedAsset};
use asset_registry::location::{Interior, Junction, Location};
use asset_registry::registry::{AssetMetadata, CustomMetadata, Registry};

fn meta(location: Option<Location>) -> AssetMetadata {
    AssetMetadata {
        decimals: 12,
        name: b"para G foreign token".to_vec(),
        symbol: b"paraF".to_vec(),
        existential_deposit: 0,
        location,
        additional: CustomMetadata { fee_per_second: 1_000_000_000_000 },
    }
}

#[test]
fn sentinel_id_converts_to_parent_whatever_the_registry_holds() {
    let empty = Registry::new();
    assert_eq!(CurrencyIdConvert::convert_id(&empty, 0), Some(Location::parent()));

    let mut populated = Registry::new();
    let loc = Location {
        parents: 1,
        interior: Interior::X1(Junction::Parachain(4)),
    };
    assert!(populated.register(1, meta(Some(loc))).is_ok());
    assert_eq!(CurrencyIdConvert::convert_id(&populated, 0), Some(Location::parent()));
}

#[test]
fn parent_location_converts_to_sentinel_id_whatever_the_registry_holds() {
    let empty = Registry::new();
    assert_eq!(CurrencyIdConvert::convert_location(&empty, &Location::parent()), Some(0));

    let mut populated = Registry::new();
    let loc = Location {
        parents: 1,
        interior: Interior::X1(Junction::Parachain(7)),
    };
    assert!(populated.register(9, meta(Some(loc))).is_ok());
    assert_eq!(CurrencyIdConvert::convert_location(&populated, &Location::parent()), Some(0));
}

#[test]
fn registered_id_converts_both_ways_and_unregistered_yields_none() {
    // register id 1 with location [chain=4, module, asset=0]
    let mut reg = Registry::new();
    let loc = Location {
        parents: 1,
        interior: Interior::X3(
            Junction::Parachain(4),
            Junction::PalletInstance(50),
            Junction::GeneralIndex(0),
        ),
    };
    assert!(reg.register(1, meta(Some(loc))).is_ok());
    assert_eq!(CurrencyIdConvert::convert_id(&reg, 1), Some(loc));
    assert_eq!(CurrencyIdConvert::convert_location(&reg, &loc), Some(1));
    assert_eq!(CurrencyIdConvert::convert_id(&reg, 99), None);
}

#[test]
fn registered_id_without_location_falls_back_to_the_empty_location() {
    let mut reg = Registry::new();
    assert!(reg.register(7, meta(None)).is_ok());
    assert_eq!(CurrencyIdConvert::convert_id(&reg, 7), Some(Location::here()));
}

#[test]
fn unknown_location_converts_to_none() {
    let reg = Registry::new();
    let loc = Location {
        parents: 1,
        interior: Interior::X1(Junction::Parachain(2)),
    };
    assert_eq!(CurrencyIdConvert::convert_location(&reg, &loc), None);
}

#[test]
fn only_fungible_assets_with_concrete_locations_convert() {
    let mut reg = Registry::new();
    let loc = Location {
        parents: 1,
        interior: Interior::X2(Junction::Parachain(4), Junction::GeneralIndex(0)),
    };
    assert!(reg.register(1, meta(Some(loc))).is_ok());

    let fungible = FundedAsset::Fungible(loc, 100);
    assert_eq!(CurrencyIdConvert::convert_asset(&reg, &fungible), Some(1));

    let parent_funded = FundedAsset::Fungible(Location::parent(), 5);
    assert_eq!(CurrencyIdConvert::convert_asset(&reg, &parent_funded), Some(0));

    let non_fungible = FundedAsset::NonFungible(loc, 3);
    assert_eq!(CurrencyIdConvert::convert_asset(&reg, &non_fungible), None);

    let abstract_asset = FundedAsset::Abstract(b"KSM".to_vec(), 100);
    assert_eq!(CurrencyIdConvert::convert_asset(&reg, &abstract_asset), None);
}
