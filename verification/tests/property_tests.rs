use intent_ledger::contract::Contract;
use intent_ledger::errors::Error;
use intent_ledger::pledge::SettleStatus;

fn accounts(i: usize) -> String {
    ["alice", "bob", "charlie", "danny", "eugene", "fargo"][i].to_string()
}

/// FIFO correctness: pledges [10, 20, 20, 20] settled against a balance of
/// 25 burn [10, 15, 0, 0] and capture [0, 5, 20, 20].
#[test]
fn fifo_allocation() {
    let owner = accounts(1);
    let holder = accounts(0);
    let market = accounts(3);
    let mut contract = Contract::new(accounts(1), accounts(3));

    contract.mint(&owner, &holder, "hold-0".to_string(), 10).unwrap();
    contract.mint(&owner, &holder, "hold-1".to_string(), 20).unwrap();
    contract.mint(&owner, &holder, "hold-2".to_string(), 20).unwrap();
    contract.mint(&owner, &holder, "hold-3".to_string(), 20).unwrap();
    // balance 70; spend 45 so that 25 is left at settlement time
    contract.ft_transfer(&holder, &market, 45).unwrap();

    let plan = contract.capture_and_burn_for(&owner, &holder).unwrap();
    assert_eq!(
        plan,
        [
            ("hold-0".to_string(), 0),
            ("hold-1".to_string(), 5),
            ("hold-2".to_string(), 20),
            ("hold-3".to_string(), 20),
        ]
    );

    let expected_burns: [u128; 4] = [10, 15, 0, 0];
    let expected_captures: [u128; 4] = [0, 5, 20, 20];
    for j in 0..4 {
        let p = contract.intent_at(&holder, j).unwrap();
        match p.status {
            SettleStatus::Settled { burn_amount, capture_amount } => {
                assert_eq!(burn_amount, expected_burns[j]);
                assert_eq!(capture_amount, expected_captures[j]);
                assert_eq!(burn_amount + capture_amount, p.intent_balance);
            }
            SettleStatus::Unsettled => panic!("pledge left unsettled"),
        }
    }
    assert_eq!(contract.ft_balance_of(&holder), 0);
}

/// Unauthorized guard: every owner-only entry point rejects a stranger and
/// changes nothing.
#[test]
fn unauthorized_calls_change_nothing() {
    let owner = accounts(1);
    let mallory = accounts(4);
    let mut contract = Contract::new(accounts(1), accounts(3));
    contract.mint(&owner, &accounts(0), "hold-0".to_string(), 30).unwrap();

    assert_eq!(
        contract.mint(&mallory, &accounts(0), "hold-1".to_string(), 5),
        Err(Error::Unauthorized)
    );
    assert_eq!(contract.start_burn(&mallory), Err(Error::Unauthorized));
    assert_eq!(contract.complete_burn(&mallory), Err(Error::Unauthorized));
    assert_eq!(
        contract.capture_and_burn_for(&mallory, &accounts(0)),
        Err(Error::Unauthorized)
    );
    assert_eq!(
        contract.capture_and_burn_all(&mallory, None),
        Err(Error::Unauthorized)
    );

    assert_eq!(contract.ft_total_supply(), 30);
    assert_eq!(contract.ft_balance_of(&accounts(0)), 30);
    assert_eq!(contract.intent_count(&accounts(0)), 1);
    assert!(matches!(
        contract.intent_at(&accounts(0), 0).unwrap().status,
        SettleStatus::Unsettled
    ));
    assert!(!contract.burn_window_open());
}

/// Conservation: the supply is always everything minted minus every burn
/// applied at settlement.
#[test]
fn conservation_across_operations() {
    let owner = accounts(1);
    let market = accounts(3);
    let mut contract = Contract::new(accounts(1), accounts(3));

    contract.mint(&owner, &accounts(0), "hold-0".to_string(), 10).unwrap();
    contract.mint(&owner, &accounts(2), "hold-1".to_string(), 20).unwrap();
    assert_eq!(contract.ft_total_supply(), 30);

    // a transfer moves balance but conserves supply
    contract.ft_transfer(&accounts(0), &market, 4).unwrap();
    assert_eq!(contract.ft_total_supply(), 30);

    // settling burns what the remaining balance still backs: 6 of 10
    assert_eq!(
        contract.capture_and_burn_for(&owner, &accounts(0)).unwrap(),
        [("hold-0".to_string(), 4)]
    );
    assert_eq!(contract.ft_total_supply(), 30 - 6);
    assert_eq!(
        contract.ft_balance_of(&accounts(0))
            + contract.ft_balance_of(&accounts(2))
            + contract.ft_balance_of(&market),
        contract.ft_total_supply()
    );
}

/// Settlement terminality: a second pass never rewrites a settled pledge.
#[test]
fn settlement_is_terminal() {
    let owner = accounts(1);
    let market = accounts(3);
    let mut contract = Contract::new(accounts(1), accounts(3));
    contract.mint(&owner, &accounts(0), "hold-0".to_string(), 10).unwrap();
    contract.ft_transfer(&accounts(0), &market, 7).unwrap();

    assert_eq!(
        contract.capture_and_burn_for(&owner, &accounts(0)).unwrap(),
        [("hold-0".to_string(), 7)]
    );
    let first = contract.intent_at(&accounts(0), 0).unwrap();

    // deposit fresh balance: it must not re-open the settled pledge
    contract.mint(&owner, &accounts(0), "hold-1".to_string(), 100).unwrap();
    assert_eq!(
        contract.capture_and_burn_for(&owner, &accounts(0)).unwrap(),
        [("hold-1".to_string(), 0)]
    );
    let second = contract.intent_at(&accounts(0), 0).unwrap();
    assert_eq!(first.intent_id, second.intent_id);
    assert_eq!(first.intent_balance, second.intent_balance);
    assert_eq!(first.status, second.status);
    assert!(matches!(
        second.status,
        SettleStatus::Settled { burn_amount: 3, capture_amount: 7 }
    ));
}

/// No-op on a fully settled account: an empty plan and no mutation at all.
#[test]
fn settled_account_is_noop() {
    let owner = accounts(1);
    let mut contract = Contract::new(accounts(1), accounts(3));
    contract.mint(&owner, &accounts(0), "hold-0".to_string(), 10).unwrap();

    // an account that never minted settles to nothing
    assert_eq!(
        contract.capture_and_burn_for(&owner, &accounts(2)).unwrap(),
        []
    );

    assert_eq!(
        contract.capture_and_burn_for(&owner, &accounts(0)).unwrap(),
        [("hold-0".to_string(), 0)]
    );
    let supply = contract.ft_total_supply();
    let balance = contract.ft_balance_of(&accounts(0));

    assert_eq!(
        contract.capture_and_burn_for(&owner, &accounts(0)).unwrap(),
        []
    );
    assert_eq!(contract.ft_total_supply(), supply);
    assert_eq!(contract.ft_balance_of(&accounts(0)), balance);
    assert_eq!(contract.intent_count(&accounts(0)), 1);
}

fn build_backlog() -> Contract {
    let owner = accounts(1);
    let market = accounts(3);
    let mut contract = Contract::new(accounts(1), accounts(3));
    contract.mint(&owner, &accounts(0), "a0".to_string(), 10).unwrap();
    contract.mint(&owner, &accounts(1), "b0".to_string(), 10).unwrap();
    contract.mint(&owner, &accounts(1), "b1".to_string(), 20).unwrap();
    contract.mint(&owner, &accounts(2), "c0".to_string(), 50).unwrap();
    contract.ft_transfer(&accounts(1), &market, 25).unwrap();
    contract.ft_transfer(&accounts(2), &market, 8).unwrap();
    contract
}

/// Pagination drains the backlog: repeated single-account batches and one
/// unbounded pass end in the same ledger, balances and supply.
#[test]
fn pagination_matches_unbounded_pass() {
    let owner = accounts(1);

    let mut paged = build_backlog();
    let mut rounds: usize = 0;
    loop {
        let plan = paged.capture_and_burn_all(&owner, Some(1)).unwrap();
        if plan.is_empty() {
            break;
        }
        rounds += 1;
        assert!(rounds <= 3);
    }

    let mut whole = build_backlog();
    let plan = whole.capture_and_burn_all(&owner, None).unwrap();
    assert_eq!(plan.len(), 4);
    assert_eq!(whole.capture_and_burn_all(&owner, None).unwrap(), []);

    assert_eq!(paged.ft_total_supply(), whole.ft_total_supply());
    for i in 0..4 {
        assert_eq!(
            paged.ft_balance_of(&accounts(i)),
            whole.ft_balance_of(&accounts(i))
        );
        assert_eq!(paged.intent_count(&accounts(i)), whole.intent_count(&accounts(i)));
        for j in 0..paged.intent_count(&accounts(i)) {
            let p = paged.intent_at(&accounts(i), j).unwrap();
            let w = whole.intent_at(&accounts(i), j).unwrap();
            assert_eq!(p.intent_id, w.intent_id);
            assert_eq!(p.intent_balance, w.intent_balance);
            assert_eq!(p.status, w.status);
        }
    }
}

/// The end-to-end scenario: three holders, one spend, then a full
/// reconciliation epoch.
#[test]
fn end_to_end_scenario() {
    let owner = "op".to_string();
    let x = "x-holder".to_string();
    let y = "y-holder".to_string();
    let z = "z-holder".to_string();
    // X is the marketplace: the one allowed transfer destination
    let mut contract = Contract::new(owner.clone(), x.clone());

    contract.mint(&owner, &x, "x0".to_string(), 10).unwrap();
    contract.mint(&owner, &y, "y1".to_string(), 10).unwrap();
    contract.mint(&owner, &y, "y2".to_string(), 20).unwrap();
    contract.mint(&owner, &y, "y3".to_string(), 20).unwrap();
    contract.mint(&owner, &y, "y4".to_string(), 20).unwrap();
    contract.mint(&owner, &z, "z5".to_string(), 50).unwrap();

    contract.ft_transfer(&y, &x, 45).unwrap();
    assert_eq!(contract.ft_balance_of(&x), 55);
    assert_eq!(contract.ft_balance_of(&y), 25);
    assert_eq!(contract.ft_balance_of(&z), 50);

    contract.start_burn(&owner).unwrap();
    assert_eq!(
        contract.capture_and_burn_for(&owner, &z).unwrap(),
        [("z5".to_string(), 0)]
    );
    assert_eq!(
        contract.capture_and_burn_all(&owner, None).unwrap(),
        [
            ("x0".to_string(), 0),
            ("y1".to_string(), 0),
            ("y2".to_string(), 5),
            ("y3".to_string(), 20),
            ("y4".to_string(), 20),
        ]
    );
    contract.complete_burn(&owner).unwrap();

    // everything is settled: another pass finds nothing
    assert_eq!(contract.capture_and_burn_all(&owner, None).unwrap(), []);
    // 130 were minted; the burns took 10 + (10 + 15) + 50
    assert_eq!(contract.ft_total_supply(), 130 - 85);
}
