use remitwise::insurance::{CoverageType, Insurance, InsuranceError, Policy};

fn owner() -> String {
    String::from("GAOWNERAAAAAAAAAAAAAAAAAAAAAAAAAAAAAAAAAAAAAAAAAAAAAAAAA")
}

fn setup() -> (Insurance, String) {
    let mut contract = Insurance::new();
    let owner = owner();
    contract.initialize(&owner).unwrap();
    (contract, owner)
}

fn short_name() -> String {
    String::from("ShortName")
}

fn create(
    contract: &mut Insurance,
    owner: &String,
    coverage: CoverageType,
    premium: i128,
    amount: i128,
) -> Result<u32, InsuranceError> {
    contract.create_policy(owner, &short_name(), coverage, premium, amount, None, 0)
}

fn policy(contract: &Insurance, id: u32) -> Policy {
    contract.get_policy(id).unwrap()
}

#[test]
fn test_create_policy_succeeds() {
    let (mut contract, owner) = setup();
    let name = String::from("Health Policy");
    let coverage_type = CoverageType::Health;
    let policy_id = contract
        .create_policy(&owner, &name, coverage_type, 1_000_000i128, 10_000_000i128, None, 0)
        .unwrap();
    assert_eq!(policy_id, 1);
}

#[test]
fn test_pay_premium_success() {
    let (mut contract, owner) = setup();
    let policy_id = create(&mut contract, &owner, CoverageType::Health, 1_000_000, 10_000_000).unwrap();
    contract.pay_premium(&owner, policy_id, 0).unwrap();
}

#[test]
fn test_deactivate_policy_success() {
    let (mut contract, owner) = setup();
    let policy_id = create(&mut contract, &owner, CoverageType::Health, 1_000_000, 10_000_000).unwrap();
    contract.deactivate_policy(&owner, policy_id).unwrap();
    let policy = contract.get_policy(policy_id).unwrap();
    assert!(!policy.active);
}

#[test]
fn test_get_active_policies() {
    let (mut contract, owner) = setup();
    create(&mut contract, &owner, CoverageType::Health, 1_000_000, 10_000_000).unwrap();
    create(&mut contract, &owner, CoverageType::Life, 1_000_000, 50_000_000).unwrap();
    let active = contract.get_active_policies(&owner, 0, 10);
    assert_eq!(active.count, 2);
}

#[test]
fn test_get_total_monthly_premium() {
    let (mut contract, owner) = setup();
    create(&mut contract, &owner, CoverageType::Health, 1_000_000, 10_000_000).unwrap();
    create(&mut contract, &owner, CoverageType::Life, 2_000_000, 50_000_000).unwrap();
    assert_eq!(contract.get_total_monthly_premium(&owner), 3_000_000i128);
}

#[test]
fn test_health_premium_at_minimum_boundary() {
    let (mut contract, owner) = setup();
    create(&mut contract, &owner, CoverageType::Health, 100, 10_000_000).unwrap();
}

#[test]
fn test_health_premium_below_minimum_fails() {
    let (mut contract, owner) = setup();
    let result = create(&mut contract, &owner, CoverageType::Health, 99, 10_000_000);
    assert_eq!(result, Err(InsuranceError::InvalidAmount));
}

#[test]
fn test_life_premium_at_minimum_boundary() {
    let (mut contract, owner) = setup();
    create(&mut contract, &owner, CoverageType::Life, 500, 10_000).unwrap();
}

#[test]
fn test_life_premium_below_minimum_fails() {
    let (mut contract, owner) = setup();
    let result = create(&mut contract, &owner, CoverageType::Life, 499, 10_000);
    assert_eq!(result, Err(InsuranceError::InvalidAmount));
}

#[test]
fn test_life_coverage_below_minimum_fails() {
    let (mut contract, owner) = setup();
    let result = create(&mut contract, &owner, CoverageType::Life, 500, 9_999);
    assert_eq!(result, Err(InsuranceError::InvalidAmount));
}

#[test]
fn test_property_premium_at_minimum_boundary() {
    let (mut contract, owner) = setup();
    create(&mut contract, &owner, CoverageType::Property, 200, 10_000_000).unwrap();
}

#[test]
fn test_property_premium_below_minimum_fails() {
    let (mut contract, owner) = setup();
    let result = create(&mut contract, &owner, CoverageType::Property, 199, 10_000_000);
    assert_eq!(result, Err(InsuranceError::InvalidAmount));
}

#[test]
fn test_create_policy_empty_name_fails() {
    let (mut contract, owner) = setup();
    let result = contract.create_policy(
        &owner,
        &String::from(""),
        CoverageType::Health,
        1_000_000,
        10_000_000,
        None,
        0,
    );
    assert_eq!(result, Err(InsuranceError::InvalidName));
}

#[test]
fn test_create_policy_long_name_fails() {
    let (mut contract, owner) = setup();
    let long_name =
        String::from("AAAAAAAAAAAAAAAAAAAAAAAAAAAAAAAAAAAAAAAAAAAAAAAAAAAAAAAAAAAAAAAAA");
    let result = contract.create_policy(
        &owner,
        &long_name,
        CoverageType::Health,
        1_000_000,
        10_000_000,
        None,
        0,
    );
    assert_eq!(result, Err(InsuranceError::InvalidName));
}

#[test]
fn test_batch_pay_premiums() {
    let (mut contract, owner) = setup();
    let p1 = create(&mut contract, &owner, CoverageType::Health, 1_000_000, 10_000_000).unwrap();
    let p2 = create(&mut contract, &owner, CoverageType::Life, 1_000_000, 50_000_000).unwrap();
    let mut ids = Vec::new();
    ids.push(p1);
    ids.push(p2);
    let count = contract.batch_pay_premiums(&owner, &ids, 0).unwrap();
    assert_eq!(count, 2);
}

#[test]
fn test_add_tags_to_policy() {
    let (mut contract, owner) = setup();
    let policy_id = create(&mut contract, &owner, CoverageType::Health, 1_000_000, 10_000_000).unwrap();
    let mut tags = Vec::new();
    tags.push(String::from("tag1"));
    tags.push(String::from("tag2"));
    contract.add_tags_to_policy(&owner, policy_id, &tags).unwrap();
    let policy = contract.get_policy(policy_id).unwrap();
    assert_eq!(policy.tags.len(), 2);
}

#[test]
fn test_remove_tags_from_policy() {
    let (mut contract, owner) = setup();
    let policy_id = create(&mut contract, &owner, CoverageType::Health, 1_000_000, 10_000_000).unwrap();
    let mut tags = Vec::new();
    let t1 = String::from("tag1");
    let t2 = String::from("tag2");
    tags.push(t1.clone());
    tags.push(t2.clone());
    contract.add_tags_to_policy(&owner, policy_id, &tags).unwrap();

    let mut to_remove = Vec::new();
    to_remove.push(t1);
    contract.remove_tags_from_policy(&owner, policy_id, &to_remove).unwrap();

    let policy = contract.get_policy(policy_id).unwrap();
    assert_eq!(policy.tags.len(), 1);
    assert_eq!(policy.tags.get(0).unwrap(), &t2);
}

// Further cases.

#[test]
fn initialize_twice_is_refused() {
    let (mut contract, owner) = setup();
    assert!(contract.is_initialized());
    assert_eq!(contract.initialize(&owner), Err(InsuranceError::AlreadyInitialized));
    assert!(!Insurance::new().is_initialized());
}

#[test]
fn policy_ids_follow_creation_order_and_read_back() {
    let (mut contract, owner) = setup();
    let a = create(&mut contract, &owner, CoverageType::Health, 150, 1_000).unwrap();
    let b = create(&mut contract, &owner, CoverageType::Property, 250, 2_000).unwrap();
    let c = contract
        .create_policy(
            &owner,
            &String::from("Family"),
            CoverageType::Life,
            700,
            20_000,
            Some(String::from("ext-7")),
            1_000,
        )
        .unwrap();
    assert_eq!((a, b, c), (1, 2, 3));
    let p = policy(&contract, c);
    assert_eq!(p.id, 3);
    assert_eq!(p.owner, owner);
    assert_eq!(p.name, "Family");
    assert_eq!(p.external_ref, Some(String::from("ext-7")));
    assert_eq!(p.coverage_type, CoverageType::Life);
    assert_eq!(p.monthly_premium, 700);
    assert_eq!(p.coverage_amount, 20_000);
    assert!(p.active);
    assert_eq!(p.next_payment_date, 1_000 + 2_592_000);
    assert!(p.tags.is_empty());
    assert!(contract.get_policy(0).is_none());
    assert!(contract.get_policy(4).is_none());
}

#[test]
fn name_length_counts_bytes() {
    let (mut contract, owner) = setup();
    let exactly_64 = "B".repeat(64);
    let name = String::from(exactly_64.as_str());
    assert_eq!(
        contract.create_policy(&owner, &name, CoverageType::Health, 100, 1, None, 0),
        Ok(1)
    );
    // 22 three-byte characters are 66 bytes.
    let wide = String::from("€".repeat(22).as_str());
    assert_eq!(
        contract.create_policy(&owner, &wide, CoverageType::Health, 100, 1, None, 0),
        Err(InsuranceError::InvalidName)
    );
}

#[test]
fn premium_above_maximum_and_zero_coverage_are_refused() {
    let (mut contract, owner) = setup();
    assert_eq!(
        create(&mut contract, &owner, CoverageType::Health, 1_000_000_000_000_000_001, 10),
        Err(InsuranceError::InvalidAmount)
    );
    assert_eq!(
        create(&mut contract, &owner, CoverageType::Health, 1_000_000_000_000_000_000, 10),
        Ok(1)
    );
    assert_eq!(
        create(&mut contract, &owner, CoverageType::Property, 200, 0),
        Err(InsuranceError::InvalidAmount)
    );
}

#[test]
fn pay_premium_moves_next_payment_date() {
    let (mut contract, owner) = setup();
    let id = create(&mut contract, &owner, CoverageType::Health, 1_000, 10_000).unwrap();
    contract.pay_premium(&owner, id, 5_000).unwrap();
    assert_eq!(policy(&contract, id).next_payment_date, 5_000 + 2_592_000);
}

#[test]
fn holder_errors() {
    let (mut contract, owner) = setup();
    let stranger = String::from("GBSTRANGER");
    let id = create(&mut contract, &owner, CoverageType::Health, 1_000, 10_000).unwrap();
    assert_eq!(contract.pay_premium(&owner, 9, 0), Err(InsuranceError::PolicyNotFound));
    assert_eq!(contract.pay_premium(&stranger, id, 0), Err(InsuranceError::Unauthorized));
    assert_eq!(contract.deactivate_policy(&stranger, id), Err(InsuranceError::Unauthorized));
    assert_eq!(contract.deactivate_policy(&owner, 0), Err(InsuranceError::PolicyNotFound));
    let tags = vec![String::from("x")];
    assert_eq!(
        contract.add_tags_to_policy(&stranger, id, &tags),
        Err(InsuranceError::Unauthorized)
    );
    assert_eq!(
        contract.remove_tags_from_policy(&owner, 2, &tags),
        Err(InsuranceError::PolicyNotFound)
    );
}

#[test]
fn deactivated_policy_refuses_payment_and_leaves_totals() {
    let (mut contract, owner) = setup();
    let a = create(&mut contract, &owner, CoverageType::Health, 1_000, 10_000).unwrap();
    let _b = create(&mut contract, &owner, CoverageType::Life, 2_000, 20_000).unwrap();
    assert_eq!(contract.get_total_monthly_premium(&owner), 3_000);
    contract.deactivate_policy(&owner, a).unwrap();
    assert_eq!(contract.pay_premium(&owner, a, 0), Err(InsuranceError::PolicyInactive));
    assert_eq!(contract.get_total_monthly_premium(&owner), 2_000);
    assert_eq!(contract.get_active_policies(&owner, 0, 0).count, 1);
}

#[test]
fn totals_and_listings_are_per_holder() {
    let (mut contract, owner) = setup();
    let other = String::from("GBOTHER");
    create(&mut contract, &owner, CoverageType::Health, 1_000, 10_000).unwrap();
    create(&mut contract, &other, CoverageType::Health, 4_000, 10_000).unwrap();
    create(&mut contract, &owner, CoverageType::Health, 500, 10_000).unwrap();
    assert_eq!(contract.get_total_monthly_premium(&owner), 1_500);
    assert_eq!(contract.get_total_monthly_premium(&other), 4_000);
    assert_eq!(contract.get_total_monthly_premium(&String::from("GBNOBODY")), 0);
    let page = contract.get_active_policies(&owner, 0, 10);
    let ids: Vec<u32> = page.items.iter().map(|p| p.id).collect();
    assert_eq!(ids, vec![1, 3]);
    assert_eq!(page.next_cursor, 0);
}

#[test]
fn active_policy_pages_follow_cursors() {
    let (mut contract, owner) = setup();
    for _ in 0..7 {
        create(&mut contract, &owner, CoverageType::Health, 100, 1).unwrap();
    }
    contract.deactivate_policy(&owner, 3).unwrap();
    let first = contract.get_active_policies(&owner, 0, 2);
    let ids: Vec<u32> = first.items.iter().map(|p| p.id).collect();
    assert_eq!(ids, vec![1, 2]);
    assert_eq!(first.next_cursor, 2);
    let second = contract.get_active_policies(&owner, first.next_cursor, 2);
    let ids: Vec<u32> = second.items.iter().map(|p| p.id).collect();
    assert_eq!(ids, vec![4, 5]);
    assert_eq!(second.next_cursor, 5);
    let third = contract.get_active_policies(&owner, second.next_cursor, 2);
    let ids: Vec<u32> = third.items.iter().map(|p| p.id).collect();
    assert_eq!(ids, vec![6, 7]);
    assert_eq!(third.next_cursor, 7);
    let last = contract.get_active_policies(&owner, third.next_cursor, 2);
    assert_eq!(last.count, 0);
    assert_eq!(last.next_cursor, 0);
    let beyond = contract.get_active_policies(&owner, u32::MAX, u32::MAX);
    assert_eq!(beyond.count, 0);
}

#[test]
fn active_policy_page_limits() {
    let (mut contract, owner) = setup();
    for _ in 0..60 {
        create(&mut contract, &owner, CoverageType::Health, 100, 1).unwrap();
    }
    let default_page = contract.get_active_policies(&owner, 0, 0);
    assert_eq!(default_page.count, 20);
    assert_eq!(default_page.next_cursor, 20);
    let capped = contract.get_active_policies(&owner, 0, 1_000);
    assert_eq!(capped.count, 50);
    assert_eq!(capped.items.len(), 50);
    assert_eq!(capped.next_cursor, 50);
    let rest = contract.get_active_policies(&owner, 50, 1_000);
    assert_eq!(rest.count, 10);
    assert_eq!(rest.next_cursor, 0);
}

#[test]
fn batch_skips_refused_payments_and_limits_size() {
    let (mut contract, owner) = setup();
    let other = String::from("GBOTHER");
    let a = create(&mut contract, &owner, CoverageType::Health, 1_000, 10_000).unwrap();
    let b = create(&mut contract, &other, CoverageType::Health, 1_000, 10_000).unwrap();
    let c = create(&mut contract, &owner, CoverageType::Health, 1_000, 10_000).unwrap();
    contract.deactivate_policy(&owner, c).unwrap();
    let ids = vec![a, b, c, 99, a];
    assert_eq!(contract.batch_pay_premiums(&owner, &ids, 10), Ok(2));
    assert_eq!(policy(&contract, a).next_payment_date, 10 + 2_592_000);
    assert_eq!(policy(&contract, b).next_payment_date, 2_592_000);
    let too_many: Vec<u32> = vec![a; 51];
    assert_eq!(
        contract.batch_pay_premiums(&owner, &too_many, 0),
        Err(InsuranceError::BatchTooLarge)
    );
    let fifty: Vec<u32> = vec![a; 50];
    assert_eq!(contract.batch_pay_premiums(&owner, &fifty, 0), Ok(50));
}

#[test]
fn tags_stay_distinct_and_add_then_remove_restores() {
    let (mut contract, owner) = setup();
    let id = create(&mut contract, &owner, CoverageType::Health, 1_000, 10_000).unwrap();
    let base = vec![String::from("home"), String::from("car")];
    contract.add_tags_to_policy(&owner, id, &base).unwrap();
    let extra = vec![String::from("car"), String::from("pet"), String::from("pet")];
    contract.add_tags_to_policy(&owner, id, &extra).unwrap();
    assert_eq!(policy(&contract, id).tags, vec!["home", "car", "pet"]);
    contract.remove_tags_from_policy(&owner, id, &extra).unwrap();
    assert_eq!(policy(&contract, id).tags, vec!["home"]);
    contract.remove_tags_from_policy(&owner, id, &vec![String::from("none")]).unwrap();
    assert_eq!(policy(&contract, id).tags, vec!["home"]);
}

#[test]
fn state_round_trips_through_parts() {
    let (mut contract, owner) = setup();
    create(&mut contract, &owner, CoverageType::Health, 1_000, 10_000).unwrap();
    contract.add_tags_to_policy(&owner, 1, &vec![String::from("a")]).unwrap();
    let (admin, policies) = contract.into_parts();
    assert_eq!(admin, Some(owner.clone()));
    assert_eq!(policies.len(), 1);
    let rebuilt = Insurance::from_parts(admin.clone(), policies).unwrap();
    assert_eq!(rebuilt.get_total_monthly_premium(&owner), 1_000);
    assert_eq!(rebuilt.get_policy(1).unwrap().tags, vec!["a"]);

    // Ids out of order, duplicate tags, or policies without an administrator
    // are not a state the contract can be in.
    let mut p = rebuilt.get_policy(1).unwrap();
    p.id = 2;
    assert!(Insurance::from_parts(admin.clone(), vec![p]).is_none());
    let mut q = rebuilt.get_policy(1).unwrap();
    q.tags = vec![String::from("x"), String::from("x")];
    assert!(Insurance::from_parts(admin.clone(), vec![q]).is_none());
    let r = rebuilt.get_policy(1).unwrap();
    assert!(Insurance::from_parts(None, vec![r]).is_none());
    let mut neg = rebuilt.get_policy(1).unwrap();
    neg.monthly_premium = -1;
    assert!(Insurance::from_parts(admin, vec![neg]).is_none());
    assert!(Insurance::from_parts(None, Vec::new()).is_some());
}
