use intent_ledger::contract::Contract;
use intent_ledger::errors::Error;

/// The fixed roster of test account names, by index.
fn accounts(i: usize) -> String {
    ["alice", "bob", "charlie", "danny", "eugene", "fargo"][i].to_string()
}

#[test]
fn test_new() {
    let contract = Contract::new(accounts(1), accounts(3));
    assert_eq!(contract.owner_id(), accounts(1));
    assert_eq!(contract.marketplace_id(), accounts(3));
}

#[test]
fn test_mint() {
    let owner = accounts(1);
    let mut contract = Contract::new(accounts(1), accounts(3));

    contract
        .mint(&owner, &accounts(1), "intent-id".to_string(), 100)
        .unwrap();

    assert_eq!(
        contract
            .intent_at(&accounts(1), 0)
            .unwrap()
            .intent_balance,
        100
    );
    assert_eq!(contract.ft_balance_of(&accounts(1)), 100);

    contract
        .mint(&owner, &accounts(1), "intent-id-2".to_string(), 500)
        .unwrap();
    assert_eq!(
        contract
            .intent_at(&accounts(1), 1)
            .unwrap()
            .intent_balance,
        500
    );
    assert_eq!(contract.ft_balance_of(&accounts(1)), 600);
}

#[test]
fn test_ft_transfer() {
    let owner = accounts(1);
    let mut contract = Contract::new(accounts(1), accounts(1));

    contract
        .mint(&owner, &accounts(0), "intent-id".to_string(), 100)
        .unwrap();

    contract.ft_transfer(&accounts(0), &accounts(1), 50).unwrap();

    assert_eq!(contract.ft_balance_of(&accounts(0)), 50);
    assert_eq!(contract.ft_balance_of(&accounts(1)), 50);
}

#[test]
fn test_capture_and_burn_all() {
    let owner = accounts(1);
    let mut contract = Contract::new(accounts(1), accounts(3));

    contract
        .mint(&owner, &accounts(0), "intent-id-0".to_string(), 10)
        .unwrap();

    contract
        .mint(&owner, &accounts(1), "intent-id-1".to_string(), 10)
        .unwrap();
    contract
        .mint(&owner, &accounts(1), "intent-id-2".to_string(), 20)
        .unwrap();
    contract
        .mint(&owner, &accounts(1), "intent-id-3".to_string(), 20)
        .unwrap();
    contract
        .mint(&owner, &accounts(1), "intent-id-4".to_string(), 20)
        .unwrap();

    contract
        .mint(&owner, &accounts(2), "intent-id-5".to_string(), 50)
        .unwrap();

    contract.ft_transfer(&accounts(1), &accounts(3), 45).unwrap();

    assert_eq!(
        contract
            .capture_and_burn_for(&owner, &accounts(2))
            .unwrap(),
        [("intent-id-5".to_string(), 0)]
    );

    assert_eq!(
        contract.capture_and_burn_all(&owner, None).unwrap(),
        [
            ("intent-id-0".to_string(), 0),
            ("intent-id-1".to_string(), 0),
            ("intent-id-2".to_string(), 5),
            ("intent-id-3".to_string(), 20),
            ("intent-id-4".to_string(), 20),
        ]
    );
}

#[test]
fn test_capture_and_burn_all_paged() {
    let owner = accounts(1);
    let mut contract = Contract::new(accounts(1), accounts(3));

    contract
        .mint(&owner, &accounts(0), "intent-id-0".to_string(), 10)
        .unwrap();

    contract
        .mint(&owner, &accounts(1), "intent-id-1".to_string(), 10)
        .unwrap();
    contract
        .mint(&owner, &accounts(1), "intent-id-2".to_string(), 20)
        .unwrap();
    contract
        .mint(&owner, &accounts(1), "intent-id-3".to_string(), 20)
        .unwrap();
    contract
        .mint(&owner, &accounts(1), "intent-id-4".to_string(), 20)
        .unwrap();

    contract
        .mint(&owner, &accounts(2), "intent-id-5".to_string(), 50)
        .unwrap();

    contract.ft_transfer(&accounts(1), &accounts(3), 45).unwrap();
    contract.ft_transfer(&accounts(2), &accounts(3), 5).unwrap();

    assert_eq!(
        contract.capture_and_burn_all(&owner, Some(1)).unwrap(),
        [("intent-id-0".to_string(), 0)]
    );

    assert_eq!(
        contract.capture_and_burn_all(&owner, Some(1)).unwrap(),
        [
            ("intent-id-1".to_string(), 0),
            ("intent-id-2".to_string(), 5),
            ("intent-id-3".to_string(), 20),
            ("intent-id-4".to_string(), 20),
        ]
    );

    assert_eq!(
        contract.capture_and_burn_all(&owner, Some(1)).unwrap(),
        [("intent-id-5".to_string(), 5)]
    );
}

#[test]
fn test_capture_and_burn_all_multi() {
    let owner = accounts(1);
    let mut contract = Contract::new(accounts(1), accounts(3));

    contract
        .mint(&owner, &accounts(1), "intent-id-0".to_string(), 10)
        .unwrap();

    assert_eq!(
        contract.capture_and_burn_all(&owner, Some(1)).unwrap(),
        [("intent-id-0".to_string(), 0)]
    );

    contract
        .mint(&owner, &accounts(1), "intent-id-1".to_string(), 20)
        .unwrap();

    assert_eq!(
        contract.capture_and_burn_all(&owner, Some(1)).unwrap(),
        [("intent-id-1".to_string(), 0)]
    );
}

#[test]
fn test_mint_duplicate_intent() {
    let owner = accounts(1);
    let mut contract = Contract::new(accounts(1), accounts(3));

    contract
        .mint(&owner, &accounts(0), "intent-id".to_string(), 100)
        .unwrap();
    assert_eq!(
        contract.mint(&owner, &accounts(0), "intent-id".to_string(), 50),
        Err(Error::DuplicateIntent)
    );
    // the failed mint changed nothing
    assert_eq!(contract.ft_balance_of(&accounts(0)), 100);
    assert_eq!(contract.intent_count(&accounts(0)), 1);
    // the same identifier is fine on another account
    contract
        .mint(&owner, &accounts(2), "intent-id".to_string(), 7)
        .unwrap();
    assert_eq!(contract.ft_balance_of(&accounts(2)), 7);
}

#[test]
fn test_ft_transfer_errors() {
    let owner = accounts(1);
    let mut contract = Contract::new(accounts(1), accounts(3));

    contract
        .mint(&owner, &accounts(0), "intent-id".to_string(), 100)
        .unwrap();

    // only the marketplace may receive
    assert_eq!(
        contract.ft_transfer(&accounts(0), &accounts(2), 10),
        Err(Error::DestinationNotAllowed)
    );
    // nobody can spend more than they hold
    assert_eq!(
        contract.ft_transfer(&accounts(0), &accounts(3), 101),
        Err(Error::InsufficientBalance)
    );
    // neither failure moved anything
    assert_eq!(contract.ft_balance_of(&accounts(0)), 100);
    assert_eq!(contract.ft_balance_of(&accounts(2)), 0);
    assert_eq!(contract.ft_balance_of(&accounts(3)), 0);
}

#[test]
fn test_burn_window_gate() {
    let owner = accounts(1);
    let mut contract = Contract::new(accounts(1), accounts(3));

    assert!(!contract.burn_window_open());
    contract.start_burn(&owner).unwrap();
    assert!(contract.burn_window_open());
    contract.complete_burn(&owner).unwrap();
    assert!(!contract.burn_window_open());
}
