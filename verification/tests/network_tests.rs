use asset_registry::chain::{para_ext, relay_ext, Fault, Operation, COORDINATOR_ID};
use asset_registry::location::{Interior, Junction, Location};
use asset_registry::network::{Network, NetworkError};
use asset_registry::registry::{AssetMetadata, CustomMetadata};
use asset_registry::{ALICE, BOB, CHARLIE};

fn named_meta(name: &str, symbol: &str, location: Option<Location>) -> AssetMetadata {
    AssetMetadata {
        decimals: 12,
        name: name.as_bytes().to_vec(),
        symbol: symbol.as_bytes().to_vec(),
        existential_deposit: 0,
        location,
        additional: CustomMetadata { fee_per_second: 1_000_000_000_000 },
    }
}

fn test_net() -> Network {
    let mut net = Network::new(relay_ext());
    assert!(net.add_satellite(para_ext(1, None)).is_ok());
    assert!(net.add_satellite(para_ext(2, None)).is_ok());
    assert!(net.add_satellite(para_ext(3, None)).is_ok());
    let assets = vec![
        (0, named_meta("para G native token", "paraG", None)),
        (1, named_meta("para G foreign token", "paraF", None)),
    ];
    assert!(net.add_satellite(para_ext(4, Some(assets))).is_ok());
    net
}

#[test]
fn para_genesis_seeds_block_endowment_and_assets() {
    let assets = vec![
        (0, named_meta("para G native token", "paraG", None)),
        (1, named_meta("para G foreign token", "paraF", None)),
    ];
    let chain = para_ext(4, Some(assets));
    assert_eq!(chain.id(), 4);
    assert_eq!(chain.sandbox().block(), 1);
    assert_eq!(chain.sandbox().balance_of(ALICE, 0), 1000);
    assert_eq!(chain.sandbox().balance_of(BOB, 0), 0);
    assert_eq!(chain.sandbox().fault_count(), 0);
    assert!(chain.sandbox().registry().contains_id(0));
    assert!(chain.sandbox().registry().contains_id(1));
    let m = chain.sandbox().registry().metadata_of(0).unwrap();
    assert_eq!(m.name, b"para G native token".to_vec());
    assert_eq!(m.symbol, b"paraG".to_vec());
}

#[test]
fn relay_genesis_seeds_block_and_endowment() {
    let relay = relay_ext();
    assert_eq!(relay.id(), COORDINATOR_ID);
    assert_eq!(relay.sandbox().block(), 1);
    assert_eq!(relay.sandbox().balance_of(ALICE, 0), 1000);
    assert_eq!(relay.sandbox().fault_count(), 0);
}

#[test]
fn advancing_the_block_is_distinct_from_delivery() {
    let mut chain = para_ext(1, None);
    assert_eq!(chain.sandbox().block(), 1);
    chain.advance_block();
    assert_eq!(chain.sandbox().block(), 2);
    assert_eq!(chain.sandbox().balance_of(ALICE, 0), 1000);
}

#[test]
fn duplicate_chain_ids_are_refused() {
    let mut net = Network::new(relay_ext());
    assert!(net.add_satellite(para_ext(1, None)).is_ok());
    assert_eq!(
        net.add_satellite(para_ext(1, None)),
        Err(NetworkError::DuplicateChain)
    );
    assert_eq!(
        net.add_satellite(para_ext(COORDINATOR_ID, None)),
        Err(NetworkError::DuplicateChain)
    );
}

#[test]
fn sequence_numbers_grow_per_queue_in_enqueue_order() {
    let mut net = test_net();
    let op = Operation::Deposit { asset: Location::parent(), to: BOB, amount: 1 };
    assert_eq!(net.send(1, COORDINATOR_ID, op), Ok(0));
    assert_eq!(net.send(1, COORDINATOR_ID, op), Ok(1));
    assert_eq!(net.send(1, COORDINATOR_ID, op), Ok(2));
    // a different ordered pair numbers independently
    assert_eq!(net.send(2, COORDINATOR_ID, op), Ok(0));
}

#[test]
fn fifo_messages_apply_in_enqueue_order() {
    // the order is observable: only the first-enqueued deposit fits
    let mut net = test_net();
    let first = Operation::Deposit { asset: Location::parent(), to: BOB, amount: u128::MAX };
    let second = Operation::Deposit { asset: Location::parent(), to: BOB, amount: 1 };
    assert!(net.send(1, 2, first).is_ok());
    assert!(net.send(1, 2, second).is_ok());
    assert_eq!(net.settle(5), Some(2));
    // the earlier message landed whole; the later one found no headroom
    assert_eq!(net.balance_on(2, BOB, 0), u128::MAX);
    assert_eq!(net.chain(2).unwrap().sandbox().fault_count(), 1);
}

#[test]
fn transfers_debit_on_send_and_credit_on_delivery() {
    let mut net = test_net();
    assert!(net.transfer(1, ALICE, 0, COORDINATOR_ID, BOB, 900).is_ok());
    assert!(net.transfer(1, ALICE, 0, COORDINATOR_ID, CHARLIE, 100).is_ok());
    // debited immediately at the origin, credited only at settlement
    assert_eq!(net.balance_on(1, ALICE, 0), 0);
    assert_eq!(net.balance_on(COORDINATOR_ID, BOB, 0), 0);
    assert_eq!(net.settle(10), Some(2));
    assert_eq!(net.balance_on(COORDINATOR_ID, BOB, 0), 900);
    assert_eq!(net.balance_on(COORDINATOR_ID, CHARLIE, 0), 100);
}

#[test]
fn two_satellites_settle_one_transfer_each() {
    let mut net = test_net();
    assert!(net.transfer(1, ALICE, 0, COORDINATOR_ID, BOB, 10).is_ok());
    assert!(net.transfer(2, ALICE, 0, COORDINATOR_ID, BOB, 10).is_ok());
    let passes = net.settle(10);
    assert_eq!(passes, Some(2));
    assert!(!net.has_pending());
    // both applied, none lost or duplicated
    assert_eq!(net.balance_on(COORDINATOR_ID, BOB, 0), 20);
    assert_eq!(net.balance_on(1, ALICE, 0), 990);
    assert_eq!(net.balance_on(2, ALICE, 0), 990);
    assert_eq!(net.chain(COORDINATOR_ID).unwrap().sandbox().fault_count(), 0);
    assert_eq!(net.chain(1).unwrap().sandbox().fault_count(), 0);
    assert_eq!(net.chain(2).unwrap().sandbox().fault_count(), 0);
}

#[test]
fn a_hop_chain_settles_within_its_depth() {
    let mut net = test_net();
    // a chain of depth two: 1 executes, bounces to 0, which bounces back
    assert!(net.send(COORDINATOR_ID, 1, Operation::Hop { next: COORDINATOR_ID, ttl: 2 }).is_ok());
    let passes = net.settle_within(2);
    assert!(passes <= 3);
    assert!(!net.has_pending());
}

#[test]
fn settle_reports_the_pass_that_delivered_nothing() {
    let mut net = test_net();
    // an idle network settles in one (empty) pass
    assert_eq!(net.settle(5), Some(1));
    assert!(net.send(COORDINATOR_ID, 1, Operation::Hop { next: COORDINATOR_ID, ttl: 2 }).is_ok());
    // three delivering passes, then the empty one
    assert_eq!(net.settle(10), Some(4));
}

#[test]
fn settle_gives_up_when_the_fuel_runs_out() {
    let mut net = test_net();
    assert!(net.send(COORDINATOR_ID, 1, Operation::Hop { next: COORDINATOR_ID, ttl: 5 }).is_ok());
    assert_eq!(net.settle(2), None);
    assert!(net.has_pending());
}

#[test]
fn transfer_to_an_unknown_chain_is_refused() {
    let mut net = test_net();
    assert_eq!(
        net.transfer(1, ALICE, 0, 99, BOB, 10),
        Err(NetworkError::UnknownChain)
    );
    assert_eq!(
        net.transfer(99, ALICE, 0, COORDINATOR_ID, BOB, 10),
        Err(NetworkError::UnknownChain)
    );
    assert_eq!(net.balance_on(1, ALICE, 0), 1000);
}

#[test]
fn transfer_of_an_inexpressible_asset_is_refused() {
    let mut net = test_net();
    // currency 42 is not registered on chain 1 and is not the sentinel
    assert_eq!(
        net.transfer(1, ALICE, 42, COORDINATOR_ID, BOB, 10),
        Err(NetworkError::UnresolvedAsset)
    );
}

#[test]
fn transfer_beyond_the_balance_is_refused() {
    let mut net = test_net();
    assert_eq!(
        net.transfer(1, ALICE, 0, COORDINATOR_ID, BOB, 5000),
        Err(NetworkError::InsufficientBalance)
    );
    assert_eq!(net.balance_on(1, ALICE, 0), 1000);
}

#[test]
fn a_deposit_nobody_can_resolve_faults_and_is_dropped() {
    let mut net = test_net();
    let stranger = Location {
        parents: 1,
        interior: Interior::X3(
            Junction::Parachain(9),
            Junction::PalletInstance(50),
            Junction::GeneralIndex(7),
        ),
    };
    let op = Operation::Deposit { asset: stranger, to: BOB, amount: 10 };
    assert!(net.send(1, 2, op).is_ok());
    assert_eq!(net.settle(5), Some(2));
    assert!(!net.has_pending());
    assert_eq!(net.chain(2).unwrap().sandbox().fault_count(), 1);
    assert_eq!(net.balance_on(2, BOB, 0), 0);
}

#[test]
fn an_overflowing_deposit_faults_and_leaves_balances_alone() {
    let mut chain = para_ext(3, None);
    let huge = Operation::Deposit { asset: Location::parent(), to: BOB, amount: u128::MAX };
    assert!(chain.execute(huge).is_ok());
    assert_eq!(chain.sandbox().balance_of(BOB, 0), u128::MAX);
    let one_more = Operation::Deposit { asset: Location::parent(), to: BOB, amount: 1 };
    assert!(matches!(chain.execute(one_more), Err(Fault::Overflow)));
    assert_eq!(chain.sandbox().balance_of(BOB, 0), u128::MAX);
    assert_eq!(chain.sandbox().fault_count(), 1);
}

#[test]
fn a_deposit_of_the_parent_asset_lands_on_the_sentinel_currency() {
    let mut net = test_net();
    let op = Operation::Deposit { asset: Location::parent(), to: CHARLIE, amount: 7 };
    assert!(net.send(COORDINATOR_ID, 3, op).is_ok());
    assert_eq!(net.settle(5), Some(2));
    assert_eq!(net.balance_on(3, CHARLIE, 0), 7);
}

#[test]
fn debit_and_credit_meet_in_the_balance_book() {
    let mut chain = para_ext(2, None);
    assert!(chain.debit(ALICE, 0, 250).is_ok());
    assert_eq!(chain.sandbox().balance_of(ALICE, 0), 750);
    assert_eq!(chain.debit(ALICE, 0, 800), Err(Fault::InsufficientBalance));
    assert_eq!(chain.sandbox().balance_of(ALICE, 0), 750);
}
