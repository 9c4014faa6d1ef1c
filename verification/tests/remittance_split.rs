use remitwise::remittance_split::{
    compute_request_hash, AccountGroup, AuditOperation, RemittanceSplit, SplitAmounts,
    SplitError,
};

fn owner() -> String {
    String::from("GAOWNER")
}

fn usdc() -> String {
    String::from("CUSDCTOKEN")
}

fn accounts() -> AccountGroup {
    AccountGroup {
        spending: String::from("GSPENDING"),
        savings: String::from("GSAVINGS"),
        bills: String::from("GBILLS"),
        insurance: String::from("GINSURANCE"),
    }
}

// Starts a split owned by `owner`, with the four parts at 25 percent each.
fn setup_test() -> (RemittanceSplit, String) {
    let mut split = RemittanceSplit::new();
    let owner = owner();
    split.initialize_split(&owner, 0, &usdc(), 25, 25, 25, 25).unwrap();
    (split, owner)
}

// Makes `num_entries` distribution attempts, each of which adds one entry to
// the audit trail.
fn create_audit_log(split: &mut RemittanceSplit, owner: &String, num_entries: u32) {
    let now = 0u64;
    for i in 0..num_entries {
        let nonce = i as u64;
        let amount = 100_0000000i128 + i as i128;
        let deadline = now + 3600;
        let request_hash =
            compute_request_hash(AuditOperation::Distribute, owner, nonce, amount, deadline);
        let _result = split.distribute_usdc(
            &usdc(),
            owner,
            nonce,
            deadline,
            request_hash,
            &accounts(),
            amount,
            now,
        );
    }
}

#[test]
fn test_get_audit_log_empty_page() {
    let (split, _owner) = setup_test();
    let page = split.get_audit_log(0, 20);
    assert_eq!(page.items.len(), 0);
    assert_eq!(page.next_cursor, 0);
    assert_eq!(page.count, 0);
}

#[test]
fn test_get_audit_log_single_entry() {
    let (mut split, owner) = setup_test();
    create_audit_log(&mut split, &owner, 1);
    let page = split.get_audit_log(0, 20);
    assert_eq!(page.items.len(), 1);
    assert_eq!(page.next_cursor, 0);
    assert_eq!(page.count, 1);
}

#[test]
fn test_get_audit_log_from_index_beyond_length() {
    let (mut split, owner) = setup_test();
    create_audit_log(&mut split, &owner, 5);
    let page = split.get_audit_log(10, 20);
    assert_eq!(page.items.len(), 0);
    assert_eq!(page.next_cursor, 0);
    assert_eq!(page.count, 0);
}

#[test]
fn test_get_audit_log_u32_max_cursor() {
    let (mut split, owner) = setup_test();
    create_audit_log(&mut split, &owner, 5);
    let page = split.get_audit_log(u32::MAX, 20);
    assert_eq!(page.items.len(), 0);
    assert_eq!(page.next_cursor, 0);
    assert_eq!(page.count, 0);
}

#[test]
fn test_get_audit_log_u32_max_limit() {
    let (mut split, owner) = setup_test();
    create_audit_log(&mut split, &owner, 100);
    let page = split.get_audit_log(0, u32::MAX);
    assert_eq!(page.items.len(), 50);
    assert_eq!(page.next_cursor, 50);
    assert_eq!(page.count, 50);
}

#[test]
fn test_get_audit_log_saturating_add_overflow() {
    let (mut split, owner) = setup_test();
    create_audit_log(&mut split, &owner, 100);
    let page = split.get_audit_log(u32::MAX - 10, 50);
    assert_eq!(page.items.len(), 0);
    assert_eq!(page.next_cursor, 0);
    assert_eq!(page.count, 0);
}

#[test]
fn test_get_audit_log_pagination_determinism() {
    let (mut split, owner) = setup_test();
    create_audit_log(&mut split, &owner, 50);
    let page1 = split.get_audit_log(10, 20);
    let page2 = split.get_audit_log(10, 20);
    assert_eq!(page1.items.len(), page2.items.len());
    assert_eq!(page1.next_cursor, page2.next_cursor);
    assert_eq!(page1.count, page2.count);
    for i in 0..page1.items.len() {
        let item1 = page1.items.get(i).unwrap();
        let item2 = page2.items.get(i).unwrap();
        assert_eq!(item1.operation, item2.operation);
        assert_eq!(item1.caller, item2.caller);
        assert_eq!(item1.timestamp, item2.timestamp);
        assert_eq!(item1.success, item2.success);
    }
}

#[test]
fn test_get_audit_log_exact_boundary() {
    let (mut split, owner) = setup_test();
    create_audit_log(&mut split, &owner, 100);

    let page = split.get_audit_log(0, 100);
    assert_eq!(page.items.len(), 50);
    assert_eq!(page.next_cursor, 50);
    assert_eq!(page.count, 50);

    let page2 = split.get_audit_log(50, 100);
    assert_eq!(page2.items.len(), 50);
    assert_eq!(page2.next_cursor, 100);
    assert_eq!(page2.count, 50);

    let page3 = split.get_audit_log(100, 50);
    assert_eq!(page3.items.len(), 0);
    assert_eq!(page3.next_cursor, 0);
    assert_eq!(page3.count, 0);
}

#[test]
fn test_get_audit_log_middle_page() {
    let (mut split, owner) = setup_test();
    create_audit_log(&mut split, &owner, 75);

    let page = split.get_audit_log(25, 20);
    assert_eq!(page.items.len(), 20);
    assert_eq!(page.next_cursor, 45);
    assert_eq!(page.count, 20);

    let page2 = split.get_audit_log(45, 20);
    assert_eq!(page2.items.len(), 20);
    assert_eq!(page2.next_cursor, 65);
    assert_eq!(page2.count, 20);

    let page3 = split.get_audit_log(65, 20);
    assert_eq!(page3.items.len(), 10);
    assert_eq!(page3.next_cursor, 0);
    assert_eq!(page3.count, 10);
}

#[test]
fn test_get_audit_log_zero_limit_defaults_to_default() {
    let (mut split, owner) = setup_test();
    create_audit_log(&mut split, &owner, 50);
    let page = split.get_audit_log(0, 0);
    assert_eq!(page.items.len(), 20);
    assert_eq!(page.next_cursor, 20);
    assert_eq!(page.count, 20);
}

#[test]
fn test_get_audit_log_no_panic_on_extreme_values() {
    let (mut split, owner) = setup_test();
    create_audit_log(&mut split, &owner, 100);
    let combinations = vec![
        (0, u32::MAX),
        (u32::MAX, 1),
        (u32::MAX, u32::MAX),
        (u32::MAX - 50, 100),
        (50, u32::MAX - 50),
    ];
    for (from_index, limit) in combinations {
        let page = split.get_audit_log(from_index, limit);
        assert!(page.items.len() <= 50);
    }
}

// Further cases.

#[test]
fn initialize_checks_nonce_percentages_and_repeats() {
    let mut split = RemittanceSplit::new();
    let owner = owner();
    assert_eq!(split.calculate_split(100), Err(SplitError::NotInitialized));
    assert_eq!(
        split.initialize_split(&owner, 1, &usdc(), 25, 25, 25, 25),
        Err(SplitError::InvalidNonce)
    );
    assert_eq!(
        split.initialize_split(&owner, 0, &usdc(), 25, 25, 25, 26),
        Err(SplitError::InvalidPercentages)
    );
    assert_eq!(
        split.initialize_split(&owner, 0, &usdc(), u32::MAX, 1, 0, 100),
        Err(SplitError::InvalidPercentages)
    );
    assert!(split.get_config().is_none());
    assert_eq!(split.get_nonce(), 0);
    assert_eq!(split.initialize_split(&owner, 0, &usdc(), 50, 30, 15, 5), Ok(()));
    assert_eq!(split.get_nonce(), 1);
    let cfg = split.get_config().unwrap();
    assert_eq!(cfg.owner, owner);
    assert_eq!(cfg.usdc_contract, usdc());
    assert_eq!(
        (cfg.spending_percent, cfg.savings_percent, cfg.bills_percent, cfg.insurance_percent),
        (50, 30, 15, 5)
    );
    assert_eq!(
        split.initialize_split(&owner, 1, &usdc(), 25, 25, 25, 25),
        Err(SplitError::AlreadyInitialized)
    );
}

#[test]
fn split_rounds_down_and_gives_the_rest_to_insurance() {
    let mut split = RemittanceSplit::new();
    split.initialize_split(&owner(), 0, &usdc(), 33, 33, 33, 1).unwrap();
    assert_eq!(
        split.calculate_split(1001),
        Ok(SplitAmounts { spending: 330, savings: 330, bills: 330, insurance: 11 })
    );
    assert_eq!(split.calculate_split(0), Err(SplitError::InvalidAmount));
    assert_eq!(split.calculate_split(-7), Err(SplitError::InvalidAmount));
    let (split, _owner) = setup_test();
    assert_eq!(
        split.calculate_split(1000),
        Ok(SplitAmounts { spending: 250, savings: 250, bills: 250, insurance: 250 })
    );
    let big = split.calculate_split(i128::MAX).unwrap();
    assert_eq!(big.spending + big.savings + big.bills + big.insurance, i128::MAX);
    assert_eq!(big.spending, i128::MAX / 4);
}

#[test]
fn request_hash_exact_values() {
    assert_eq!(
        compute_request_hash(AuditOperation::Distribute, &owner(), 1, 1000, 3600),
        15016386825445446461
    );
    assert_eq!(
        compute_request_hash(AuditOperation::Distribute, &owner(), 1, -5, 3600),
        16478122692771770507
    );
    assert_ne!(
        compute_request_hash(AuditOperation::Distribute, &owner(), 1, 1000, 3600),
        compute_request_hash(AuditOperation::Distribute, &owner(), 2, 1000, 3600)
    );
}

#[test]
fn distribution_returns_transfers_and_uses_nonce() {
    let (mut split, owner) = setup_test();
    let hash = compute_request_hash(AuditOperation::Distribute, &owner, 1, 1000, 3600);
    let transfers = split
        .distribute_usdc(&usdc(), &owner, 1, 3600, hash, &accounts(), 1000, 100)
        .unwrap();
    let pairs: Vec<(String, i128)> =
        transfers.iter().map(|t| (t.to.clone(), t.amount)).collect();
    assert_eq!(
        pairs,
        vec![
            (String::from("GSPENDING"), 250),
            (String::from("GSAVINGS"), 250),
            (String::from("GBILLS"), 250),
            (String::from("GINSURANCE"), 250),
        ]
    );
    assert_eq!(split.get_nonce(), 2);
    // The same request again is a replay.
    let replay = split.distribute_usdc(&usdc(), &owner, 1, 3600, hash, &accounts(), 1000, 100);
    assert_eq!(replay.err(), Some(SplitError::InvalidNonce));
    assert_eq!(split.get_nonce(), 2);
    let log = split.get_audit_log(0, 0);
    assert_eq!(log.count, 2);
    assert!(log.items[0].success);
    assert!(!log.items[1].success);
    assert_eq!(log.items[1].caller, owner);
    assert_eq!(log.items[1].timestamp, 100);
    assert_eq!(log.items[1].operation, AuditOperation::Distribute);
}

#[test]
fn distribution_error_variants() {
    let mut fresh = RemittanceSplit::new();
    let o = owner();
    let h = compute_request_hash(AuditOperation::Distribute, &o, 1, 1000, 3600);
    assert_eq!(
        fresh.distribute_usdc(&usdc(), &o, 1, 3600, h, &accounts(), 1000, 0).err(),
        Some(SplitError::NotInitialized)
    );
    let (mut split, owner) = setup_test();
    let stranger = String::from("GSTRANGER");
    let hs = compute_request_hash(AuditOperation::Distribute, &stranger, 1, 1000, 3600);
    assert_eq!(
        split.distribute_usdc(&usdc(), &stranger, 1, 3600, hs, &accounts(), 1000, 0).err(),
        Some(SplitError::Unauthorized)
    );
    assert_eq!(
        split
            .distribute_usdc(&String::from("COTHER"), &owner, 1, 3600, h, &accounts(), 1000, 0)
            .err(),
        Some(SplitError::TokenMismatch)
    );
    let h0 = compute_request_hash(AuditOperation::Distribute, &owner, 1, 0, 3600);
    assert_eq!(
        split.distribute_usdc(&usdc(), &owner, 1, 3600, h0, &accounts(), 0, 0).err(),
        Some(SplitError::InvalidAmount)
    );
    assert_eq!(
        split.distribute_usdc(&usdc(), &owner, 1, 3600, h, &accounts(), 1000, 3601).err(),
        Some(SplitError::DeadlineExpired)
    );
    assert_eq!(
        split.distribute_usdc(&usdc(), &owner, 1, 3600, h ^ 1, &accounts(), 1000, 0).err(),
        Some(SplitError::InvalidRequestHash)
    );
    assert_eq!(split.get_nonce(), 1);
    // Every refused attempt was recorded as a failure.
    let log = split.get_audit_log(0, 0);
    assert_eq!(log.count, 5);
    assert!(log.items.iter().all(|e| !e.success));
    assert_eq!(log.items[0].caller, stranger);
    // The deadline itself is still in time.
    assert!(split.distribute_usdc(&usdc(), &owner, 1, 3600, h, &accounts(), 1000, 3600).is_ok());
}

#[test]
fn audit_trail_keeps_the_latest_hundred_entries() {
    let (mut split, owner) = setup_test();
    create_audit_log(&mut split, &owner, 130);
    let all = split.get_audit_log(0, 50);
    assert_eq!(all.count, 50);
    // The oldest 30 attempts (timestamps are all 0) were dropped; the trail
    // holds exactly 100 entries.
    let second = split.get_audit_log(50, 50);
    assert_eq!(second.count, 50);
    assert_eq!(second.next_cursor, 100);
    assert_eq!(split.get_audit_log(100, 50).count, 0);
}

#[test]
fn following_cursors_reads_every_entry_once() {
    let (mut split, owner) = setup_test();
    create_audit_log(&mut split, &owner, 37);
    let mut seen = 0u32;
    let mut cursor = 0u32;
    loop {
        let page = split.get_audit_log(cursor, 8);
        seen += page.count;
        if page.next_cursor == 0 {
            break;
        }
        assert_eq!(page.next_cursor, cursor + page.count);
        cursor = page.next_cursor;
    }
    assert_eq!(seen, 37);
}

#[test]
fn split_state_round_trips_through_parts() {
    let (mut split, owner) = setup_test();
    create_audit_log(&mut split, &owner, 3);
    let (config, nonce, log) = split.into_parts();
    assert_eq!(nonce, 3);
    assert_eq!(log.len(), 3);
    let rebuilt = RemittanceSplit::from_parts(config, nonce, log).unwrap();
    assert_eq!(rebuilt.get_nonce(), 3);
    assert_eq!(rebuilt.get_audit_log(0, 0).count, 3);
    assert!(RemittanceSplit::from_parts(None, 1, Vec::new()).is_none());
    let mut bad = rebuilt.get_config().unwrap();
    bad.bills_percent = 30;
    assert!(RemittanceSplit::from_parts(Some(bad), 3, Vec::new()).is_none());
}
