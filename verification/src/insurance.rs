//! Insurance policies: creation with per-coverage limits, premium payments,
//! deactivation, tags, and paged listings of a holder's active policies.
//!
//! Policies are numbered from 1 in the order they are created, and a policy
//! is never removed: deactivation only marks it inactive.
use vstd::prelude::*;

use crate::pagination::{clamp_limit, effective_limit, MAX_PAGE_LIMIT};

verus! {

/// Longest policy name, in UTF-8 bytes.
pub const MAX_NAME_LEN: usize = 64;

/// Largest monthly premium a policy may have.
pub const MAX_MONTHLY_PREMIUM: i128 = 1_000_000_000_000_000_000;

/// Largest number of policies one `batch_pay_premiums` call accepts.
pub const MAX_BATCH_SIZE: usize = 50;

/// Seconds between two premium payments (thirty days).
pub const PAYMENT_PERIOD_SECS: u64 = 2_592_000;

/// What a policy covers.
#[derive(Clone, Copy, Debug, PartialEq, Eq, Structural)]
pub enum CoverageType {
    Health,
    Life,
    Property,
}

/// Why a request was refused.
#[derive(Clone, Copy, Debug, PartialEq, Eq, Structural)]
pub enum InsuranceError {
    AlreadyInitialized,
    Unauthorized,
    InvalidName,
    InvalidAmount,
    PolicyNotFound,
    PolicyInactive,
    BatchTooLarge,
    PolicyLimitReached,
}

/// Smallest monthly premium accepted for a coverage type.
pub open spec fn min_premium(t: CoverageType) -> i128 {
    match t {
        CoverageType::Health => 100,
        CoverageType::Life => 500,
        CoverageType::Property => 200,
    }
}

/// Smallest coverage amount accepted for a coverage type.
pub open spec fn min_coverage(t: CoverageType) -> i128 {
    match t {
        CoverageType::Health => 1,
        CoverageType::Life => 10_000,
        CoverageType::Property => 1,
    }
}

impl CoverageType {
    /// Smallest monthly premium accepted for this coverage type.
    pub fn min_premium(&self) -> (r: i128)
        ensures
            r == min_premium(*self),
    {
        match self {
            CoverageType::Health => 100,
            CoverageType::Life => 500,
            CoverageType::Property => 200,
        }
    }

    /// Smallest coverage amount accepted for this coverage type.
    pub fn min_coverage(&self) -> (r: i128)
        ensures
            r == min_coverage(*self),
    {
        match self {
            CoverageType::Health => 1,
            CoverageType::Life => 10_000,
            CoverageType::Property => 1,
        }
    }
}

/// The amounts of a new policy are within the limits of its coverage type.
pub open spec fn amounts_valid(t: CoverageType, monthly_premium: i128, coverage_amount: i128) -> bool {
    &&& min_premium(t) <= monthly_premium <= MAX_MONTHLY_PREMIUM
    &&& min_coverage(t) <= coverage_amount
}

/// Length of a string in UTF-8 bytes, as `str::len` reports it.
pub open spec fn byte_len(s: &String) -> nat {
    vstd::utf8::encode_utf8(s@).len()
}

/// A policy name is not empty and at most `MAX_NAME_LEN` bytes long.
pub open spec fn name_valid(name: &String) -> bool {
    1 <= byte_len(name) <= MAX_NAME_LEN
}

/// One insurance policy.
pub struct Policy {
    pub id: u32,
    pub owner: String,
    pub name: String,
    pub external_ref: Option<String>,
    pub coverage_type: CoverageType,
    pub monthly_premium: i128,
    pub coverage_amount: i128,
    pub active: bool,
    pub next_payment_date: u64,
    pub tags: Vec<String>,
}

/// A policy as a value, its tags as a sequence.
pub struct PolicyView {
    pub id: u32,
    pub owner: String,
    pub name: String,
    pub external_ref: Option<String>,
    pub coverage_type: CoverageType,
    pub monthly_premium: i128,
    pub coverage_amount: i128,
    pub active: bool,
    pub next_payment_date: u64,
    pub tags: Seq<String>,
}

impl View for Policy {
    type V = PolicyView;

    open spec fn view(&self) -> PolicyView {
        PolicyView {
            id: self.id,
            owner: self.owner,
            name: self.name,
            external_ref: self.external_ref,
            coverage_type: self.coverage_type,
            monthly_premium: self.monthly_premium,
            coverage_amount: self.coverage_amount,
            active: self.active,
            next_payment_date: self.next_payment_date,
            tags: self.tags@,
        }
    }
}

/// A copy of a list of strings.
fn copy_strings(v: &Vec<String>) -> (r: Vec<String>)
    ensures
        r@ == v@,
{
    let mut r: Vec<String> = Vec::new();
    let mut i: usize = 0;
    while i < v.len()
        invariant
            i <= v@.len(),
            r@ =~= v@.take(i as int),
        decreases v@.len() - i,
    {
        r.push(v[i].clone());
        i = i + 1;
    }
    proof {
        assert(v@.take(i as int) =~= v@);
    }
    r
}

impl Policy {
    /// A copy of this policy.
    pub fn copy(&self) -> (r: Policy)
        ensures
            r@ == self@,
    {
        let external_ref = match &self.external_ref {
            Some(s) => Some(s.clone()),
            None => None,
        };
        Policy {
            id: self.id,
            owner: self.owner.clone(),
            name: self.name.clone(),
            external_ref,
            coverage_type: self.coverage_type,
            monthly_premium: self.monthly_premium,
            coverage_amount: self.coverage_amount,
            active: self.active,
            next_payment_date: self.next_payment_date,
            tags: copy_strings(&self.tags),
        }
    }
}

/// The views of a list of policies.
pub open spec fn views(ps: Seq<Policy>) -> Seq<PolicyView> {
    ps.map_values(|p: Policy| p@)
}

/// `p` is an active policy held by `owner`.
pub open spec fn active_for(p: PolicyView, owner: Seq<char>) -> bool {
    p.active && p.owner@ == owner
}

/// The active policies of `owner` among `ps`, in order.
pub open spec fn active_of(ps: Seq<PolicyView>, owner: Seq<char>) -> Seq<PolicyView>
    decreases ps.len(),
{
    if ps.len() == 0 {
        Seq::empty()
    } else {
        let prev = active_of(ps.drop_last(), owner);
        if active_for(ps.last(), owner) {
            prev.push(ps.last())
        } else {
            prev
        }
    }
}

/// The sum of the monthly premiums of `ps`.
pub open spec fn premium_sum(ps: Seq<PolicyView>) -> int
    decreases ps.len(),
{
    if ps.len() == 0 {
        0
    } else {
        premium_sum(ps.drop_last()) + ps.last().monthly_premium
    }
}

/// A tag list holds a tag equal to `t`.
pub open spec fn has_tag(tags: Seq<String>, t: Seq<char>) -> bool {
    exists|i: int| 0 <= i < tags.len() && tags[i]@ == t
}

/// The tags after `new` are added one by one, each one only when no equal
/// tag is there yet.
pub open spec fn tags_after_add(tags: Seq<String>, new: Seq<String>) -> Seq<String>
    decreases new.len(),
{
    if new.len() == 0 {
        tags
    } else {
        let prev = tags_after_add(tags, new.drop_last());
        if has_tag(prev, new.last()@) {
            prev
        } else {
            prev.push(new.last())
        }
    }
}

/// The tags that remain, in order, when every tag equal to one of `removed`
/// is taken away.
pub open spec fn tags_after_remove(tags: Seq<String>, removed: Seq<String>) -> Seq<String>
    decreases tags.len(),
{
    if tags.len() == 0 {
        Seq::empty()
    } else {
        let prev = tags_after_remove(tags.drop_last(), removed);
        if has_tag(removed, tags.last()@) {
            prev
        } else {
            prev.push(tags.last())
        }
    }
}

/// No two tags of the list are equal.
pub open spec fn tags_distinct(tags: Seq<String>) -> bool {
    forall|i: int, j: int| 0 <= i < j < tags.len() ==> tags[i]@ != tags[j]@
}

/// What the insurance contract holds: its administrator once initialized,
/// and every policy ever created, the policy with id `k` at position `k - 1`.
pub struct InsuranceState {
    pub admin: Option<String>,
    pub policies: Seq<PolicyView>,
}

/// Policies are numbered by their position, their ids fit a `u32`, their
/// premiums are within the limits, their tags are distinct, and there are
/// none before initialization.
pub open spec fn state_wf(s: InsuranceState) -> bool {
    &&& s.policies.len() <= u32::MAX
    &&& s.admin is None ==> s.policies.len() == 0
    &&& forall|i: int|
        0 <= i < s.policies.len() ==> {
            &&& #[trigger] s.policies[i].id == i + 1
            &&& 0 <= s.policies[i].monthly_premium <= MAX_MONTHLY_PREMIUM
            &&& tags_distinct(s.policies[i].tags)
        }
}

/// The position of policy `id`, if there is such a policy.
pub open spec fn policy_index(s: InsuranceState, id: u32) -> Option<int> {
    if 1 <= id <= s.policies.len() {
        Some(id - 1)
    } else {
        None
    }
}

/// Why `create_policy` refuses, if it does.
pub open spec fn create_error(
    s: InsuranceState,
    name: &String,
    coverage_type: CoverageType,
    monthly_premium: i128,
    coverage_amount: i128,
) -> Option<InsuranceError> {
    if !name_valid(name) {
        Some(InsuranceError::InvalidName)
    } else if !amounts_valid(coverage_type, monthly_premium, coverage_amount) {
        Some(InsuranceError::InvalidAmount)
    } else if s.policies.len() >= u32::MAX {
        Some(InsuranceError::PolicyLimitReached)
    } else {
        None
    }
}

/// Why a holder's request about policy `id` is refused, if it is: the policy
/// must exist and belong to `caller`.
pub open spec fn holder_error(s: InsuranceState, caller: Seq<char>, id: u32) -> Option<
    InsuranceError,
> {
    match policy_index(s, id) {
        None => Some(InsuranceError::PolicyNotFound),
        Some(i) => if s.policies[i].owner@ != caller {
            Some(InsuranceError::Unauthorized)
        } else {
            None
        },
    }
}

/// Why `pay_premium` refuses, if it does: the policy must also be active.
pub open spec fn pay_error(s: InsuranceState, caller: Seq<char>, id: u32) -> Option<
    InsuranceError,
> {
    match holder_error(s, caller, id) {
        Some(e) => Some(e),
        None => if !s.policies[id - 1].active {
            Some(InsuranceError::PolicyInactive)
        } else {
            None
        },
    }
}

/// The state after a premium for policy `id` is paid at time `now`: the next
/// payment falls one period later.
pub open spec fn paid(s: InsuranceState, id: u32, now: u64) -> InsuranceState {
    let i = id - 1;
    InsuranceState {
        policies: s.policies.update(
            i,
            PolicyView { next_payment_date: (now + PAYMENT_PERIOD_SECS) as u64, ..s.policies[i] },
        ),
        ..s
    }
}

/// The state and the number of payments made after `caller` pays, one after
/// the other, the premiums of the policies `ids`; a payment that would be
/// refused is skipped.
pub open spec fn batch_paid(s: InsuranceState, caller: Seq<char>, ids: Seq<u32>, now: u64) -> (
    InsuranceState,
    nat,
)
    decreases ids.len(),
{
    if ids.len() == 0 {
        (s, 0)
    } else {
        let (prev, n) = batch_paid(s, caller, ids.drop_last(), now);
        if pay_error(prev, caller, ids.last()) is None {
            (paid(prev, ids.last(), now), n + 1)
        } else {
            (prev, n)
        }
    }
}

/// The active policies of `owner` whose id is above `cursor`.
pub open spec fn active_after(ps: Seq<PolicyView>, owner: Seq<char>, cursor: u32) -> Seq<
    PolicyView,
> {
    if cursor >= ps.len() {
        Seq::empty()
    } else {
        active_of(ps.subrange(cursor as int, ps.len() as int), owner)
    }
}

/// The page of `owner`'s active policies after `cursor`.
pub open spec fn active_page(ps: Seq<PolicyView>, owner: Seq<char>, cursor: u32, limit: u32) -> Seq<
    PolicyView,
> {
    let c = active_after(ps, owner, cursor);
    if c.len() <= effective_limit(limit) {
        c
    } else {
        c.take(effective_limit(limit) as int)
    }
}

/// The cursor handed back with a page of active policies: the id of its last
/// policy when the page is full, and `0` otherwise.
pub open spec fn active_page_cursor(
    ps: Seq<PolicyView>,
    owner: Seq<char>,
    cursor: u32,
    limit: u32,
) -> u32 {
    let page = active_page(ps, owner, cursor, limit);
    if page.len() == effective_limit(limit) {
        page.last().id
    } else {
        0
    }
}

/// One page of a holder's active policies.
pub struct PolicyPage {
    pub items: Vec<Policy>,
    pub next_cursor: u32,
    pub count: u32,
}

/// The active policies of `owner` in a concatenation are those of each part.
pub proof fn lemma_active_of_concat(a: Seq<PolicyView>, b: Seq<PolicyView>, owner: Seq<char>)
    ensures
        active_of(a + b, owner) =~= active_of(a, owner) + active_of(b, owner),
    decreases b.len(),
{
    if b.len() == 0 {
        assert(a + b =~= a);
    } else {
        assert((a + b).drop_last() =~= a + b.drop_last());
        lemma_active_of_concat(a, b.drop_last(), owner);
    }
}

/// Every policy that `active_of` keeps is active, held by `owner` and taken
/// from the list.
pub proof fn lemma_active_of_members(ps: Seq<PolicyView>, owner: Seq<char>)
    ensures
        active_of(ps, owner).len() <= ps.len(),
        forall|k: int|
            0 <= k < active_of(ps, owner).len() ==> active_for(
                #[trigger] active_of(ps, owner)[k],
                owner,
            ) && ps.contains(active_of(ps, owner)[k]),
    decreases ps.len(),
{
    if ps.len() > 0 {
        lemma_active_of_members(ps.drop_last(), owner);
        let prev = active_of(ps.drop_last(), owner);
        assert forall|k: int|
            0 <= k < active_of(ps, owner).len() implies active_for(
            #[trigger] active_of(ps, owner)[k],
            owner,
        ) && ps.contains(active_of(ps, owner)[k]) by {
            if k < prev.len() {
                assert(ps.drop_last().contains(prev[k]));
                let j = choose|j: int| 0 <= j < ps.drop_last().len() && ps.drop_last()[j] == prev[k];
                assert(ps[j] == prev[k]);
            } else {
                assert(ps[ps.len() - 1] == ps.last());
            }
        }
    }
}

/// The insurance contract's state.
pub struct Insurance {
    admin: Option<String>,
    policies: Vec<Policy>,
}

impl View for Insurance {
    type V = InsuranceState;

    closed spec fn view(&self) -> InsuranceState {
        InsuranceState { admin: self.admin, policies: views(self.policies@) }
    }
}

impl Insurance {
    /// The state is well formed (see `state_wf`).
    pub open spec fn wf(&self) -> bool {
        state_wf(self@)
    }

    /// An uninitialized contract without policies.
    pub fn new() -> (r: Insurance)
        ensures
            r.wf(),
            r@.admin is None,
            r@.policies.len() == 0,
    {
        let r = Insurance { admin: None, policies: Vec::new() };
        proof {
            assert(r@.policies =~= Seq::<PolicyView>::empty());
        }
        r
    }

    /// Rebuilds a contract from its administrator and its policies, as
    /// `into_parts` hands them out; refused (`None`) unless they form a
    /// well-formed state.
    pub fn from_parts(admin: Option<String>, policies: Vec<Policy>) -> (r: Option<Insurance>)
        ensures
            r is Some <==> state_wf(InsuranceState { admin, policies: views(policies@) }),
            r matches Some(c) ==> c@ == (InsuranceState { admin, policies: views(policies@) }),
    {
        let ghost target = InsuranceState { admin, policies: views(policies@) };
        if policies.len() > u32::MAX as usize {
            return None;
        }
        if admin.is_none() && policies.len() > 0 {
            return None;
        }
        let mut i: usize = 0;
        while i < policies.len()
            invariant
                i <= policies@.len() <= u32::MAX,
                target == (InsuranceState { admin, policies: views(policies@) }),
                forall|j: int|
                    0 <= j < i ==> {
                        &&& #[trigger] target.policies[j].id == j + 1
                        &&& 0 <= target.policies[j].monthly_premium <= MAX_MONTHLY_PREMIUM
                        &&& tags_distinct(target.policies[j].tags)
                    },
            decreases policies@.len() - i,
        {
            let p = &policies[i];
            if p.id as usize != i + 1 || p.monthly_premium < 0 || p.monthly_premium
                > MAX_MONTHLY_PREMIUM || !tags_are_distinct(&p.tags) {
                proof {
                    assert(target.policies[i as int] == policies@[i as int]@);
                    if state_wf(target) {
                        assert(target.policies[i as int].id == i + 1);
                    }
                }
                return None;
            }
            i = i + 1;
        }
        let r = Insurance { admin, policies };
        proof {
            assert(r@ == target);
        }
        Some(r)
    }

    /// The administrator and the policies, in id order.
    pub fn into_parts(self) -> (r: (Option<String>, Vec<Policy>))
        ensures
            r.0 == self@.admin,
            views(r.1@) == self@.policies,
    {
        (self.admin, self.policies)
    }

    /// Whether `initialize` has been called.
    pub fn is_initialized(&self) -> (r: bool)
        ensures
            r == self@.admin is Some,
    {
        self.admin.is_some()
    }

    /// Records the administrator; refused when the contract already has one.
    pub fn initialize(&mut self, admin: &String) -> (r: Result<(), InsuranceError>)
        requires
            old(self).wf(),
        ensures
            final(self).wf(),
            final(self)@.policies == old(self)@.policies,
            old(self)@.admin is Some ==> r == Err::<(), InsuranceError>(
                InsuranceError::AlreadyInitialized,
            ) && final(self)@ == old(self)@,
            old(self)@.admin is None ==> r is Ok && final(self)@.admin == Some(*admin),
    {
        if self.admin.is_some() {
            return Err(InsuranceError::AlreadyInitialized);
        }
        self.admin = Some(admin.clone());
        Ok(())
    }

    /// The policy with id `id`, if there is one.
    pub fn get_policy(&self, id: u32) -> (r: Option<Policy>)
        requires
            self.wf(),
        ensures
            match policy_index(self@, id) {
                None => r is None,
                Some(i) => r matches Some(p) && p@ == self@.policies[i],
            },
    {
        if id == 0 || id as usize > self.policies.len() {
            return None;
        }
        let p = self.policies[id as usize - 1].copy();
        Some(p)
    }

    /// Creates an active policy held by `caller` and returns its id; the
    /// first premium falls due one period after `now`.
    pub fn create_policy(
        &mut self,
        caller: &String,
        name: &String,
        coverage_type: CoverageType,
        monthly_premium: i128,
        coverage_amount: i128,
        external_ref: Option<String>,
        now: u64,
    ) -> (r: Result<u32, InsuranceError>)
        requires
            old(self).wf(),
            old(self)@.admin is Some,
            now <= u64::MAX - PAYMENT_PERIOD_SECS,
        ensures
            final(self).wf(),
            final(self)@.admin == old(self)@.admin,
            match create_error(old(self)@, name, coverage_type, monthly_premium, coverage_amount) {
                Some(e) => r == Err::<u32, InsuranceError>(e) && final(self)@ == old(self)@,
                None => {
                    &&& r == Ok::<u32, InsuranceError>((old(self)@.policies.len() + 1) as u32)
                    &&& final(self)@.policies == old(self)@.policies.push(
                        PolicyView {
                            id: (old(self)@.policies.len() + 1) as u32,
                            owner: *caller,
                            name: *name,
                            external_ref,
                            coverage_type,
                            monthly_premium,
                            coverage_amount,
                            active: true,
                            next_payment_date: (now + PAYMENT_PERIOD_SECS) as u64,
                            tags: Seq::empty(),
                        },
                    )
                },
            },
            (r == Err::<u32, InsuranceError>(InsuranceError::InvalidName)) <==> !(1
                <= vstd::utf8::encode_utf8(name@).len() <= MAX_NAME_LEN),
    {
        proof {
            lemma_name_valid_exact(name);
        }
        let name_len = name.as_str().as_bytes().len();
        if name_len == 0 || name_len > MAX_NAME_LEN {
            return Err(InsuranceError::InvalidName);
        }
        if monthly_premium < coverage_type.min_premium() || monthly_premium > MAX_MONTHLY_PREMIUM
            || coverage_amount < coverage_type.min_coverage() {
            return Err(InsuranceError::InvalidAmount);
        }
        if self.policies.len() >= u32::MAX as usize {
            return Err(InsuranceError::PolicyLimitReached);
        }
        let id = (self.policies.len() + 1) as u32;
        let policy = Policy {
            id,
            owner: caller.clone(),
            name: name.clone(),
            external_ref,
            coverage_type,
            monthly_premium,
            coverage_amount,
            active: true,
            next_payment_date: now + PAYMENT_PERIOD_SECS,
            tags: Vec::new(),
        };
        let ghost old_view = self@;
        self.policies.push(policy);
        proof {
            assert(self@.policies =~= old_view.policies.push(policy@));
        }
        Ok(id)
    }

    /// Checks that policy `id` exists and belongs to `caller`, and returns
    /// its position.
    fn check_holder(&self, caller: &String, id: u32) -> (r: Result<usize, InsuranceError>)
        requires
            self.wf(),
        ensures
            match holder_error(self@, caller@, id) {
                Some(e) => r == Err::<usize, InsuranceError>(e),
                None => r == Ok::<usize, InsuranceError>((id - 1) as usize),
            },
    {
        if id == 0 || id as usize > self.policies.len() {
            return Err(InsuranceError::PolicyNotFound);
        }
        let i = id as usize - 1;
        if self.policies[i].owner != *caller {
            return Err(InsuranceError::Unauthorized);
        }
        Ok(i)
    }

    /// Pays the premium of policy `id`: the next payment falls one period
    /// after `now`.
    pub fn pay_premium(&mut self, caller: &String, id: u32, now: u64) -> (r: Result<
        (),
        InsuranceError,
    >)
        requires
            old(self).wf(),
            now <= u64::MAX - PAYMENT_PERIOD_SECS,
        ensures
            final(self).wf(),
            match pay_error(old(self)@, caller@, id) {
                Some(e) => r == Err::<(), InsuranceError>(e) && final(self)@ == old(self)@,
                None => r is Ok && final(self)@ == paid(old(self)@, id, now),
            },
    {
        let i = match self.check_holder(caller, id) {
            Err(e) => {
                return Err(e);
            },
            Ok(i) => i,
        };
        if !self.policies[i].active {
            return Err(InsuranceError::PolicyInactive);
        }
        let ghost old_view = self@;
        self.policies[i].next_payment_date = now + PAYMENT_PERIOD_SECS;
        proof {
            assert(self@.policies =~= paid(old_view, id, now).policies);
        }
        Ok(())
    }

    /// Marks policy `id` inactive; it stays listed but no premium can be paid
    /// on it any more.
    pub fn deactivate_policy(&mut self, caller: &String, id: u32) -> (r: Result<
        (),
        InsuranceError,
    >)
        requires
            old(self).wf(),
        ensures
            final(self).wf(),
            match holder_error(old(self)@, caller@, id) {
                Some(e) => r == Err::<(), InsuranceError>(e) && final(self)@ == old(self)@,
                None => r is Ok && final(self)@ == deactivated(old(self)@, id),
            },
    {
        let i = match self.check_holder(caller, id) {
            Err(e) => {
                return Err(e);
            },
            Ok(i) => i,
        };
        let ghost old_view = self@;
        self.policies[i].active = false;
        proof {
            assert(self@.policies =~= deactivated(old_view, id).policies);
        }
        Ok(())
    }

    /// Pays, one after the other, the premiums of the policies `ids` that
    /// belong to `caller` and are active, skipping the others, and returns how
    /// many were paid.  At most `MAX_BATCH_SIZE` ids are accepted.
    pub fn batch_pay_premiums(&mut self, caller: &String, ids: &Vec<u32>, now: u64) -> (r: Result<
        u32,
        InsuranceError,
    >)
        requires
            old(self).wf(),
            now <= u64::MAX - PAYMENT_PERIOD_SECS,
        ensures
            final(self).wf(),
            ids@.len() > MAX_BATCH_SIZE ==> r == Err::<u32, InsuranceError>(
                InsuranceError::BatchTooLarge,
            ) && final(self)@ == old(self)@,
            ids@.len() <= MAX_BATCH_SIZE ==> {
                let (after, n) = batch_paid(old(self)@, caller@, ids@, now);
                r == Ok::<u32, InsuranceError>(n as u32) && final(self)@ == after
            },
    {
        if ids.len() > MAX_BATCH_SIZE {
            return Err(InsuranceError::BatchTooLarge);
        }
        let ghost start = self@;
        let mut count: u32 = 0;
        let mut k: usize = 0;
        while k < ids.len()
            invariant
                self.wf(),
                k <= ids@.len() <= MAX_BATCH_SIZE,
                now <= u64::MAX - PAYMENT_PERIOD_SECS,
                self@ == batch_paid(start, caller@, ids@.take(k as int), now).0,
                count as nat == batch_paid(start, caller@, ids@.take(k as int), now).1,
                count <= k,
            decreases ids@.len() - k,
        {
            proof {
                assert(ids@.take(k + 1).drop_last() =~= ids@.take(k as int));
            }
            let paid_ok = self.pay_premium(caller, ids[k], now);
            if paid_ok.is_ok() {
                count = count + 1;
            }
            k = k + 1;
        }
        proof {
            assert(ids@.take(k as int) =~= ids@);
        }
        Ok(count)
    }

    /// Adds to policy `id` each of `tags` that it does not carry yet, in
    /// order.
    pub fn add_tags_to_policy(&mut self, caller: &String, id: u32, tags: &Vec<String>) -> (r:
        Result<(), InsuranceError>)
        requires
            old(self).wf(),
        ensures
            final(self).wf(),
            match holder_error(old(self)@, caller@, id) {
                Some(e) => r == Err::<(), InsuranceError>(e) && final(self)@ == old(self)@,
                None => r is Ok && final(self)@ == retagged(
                    old(self)@,
                    id,
                    tags_after_add(old(self)@.policies[id - 1].tags, tags@),
                ),
            },
    {
        let i = match self.check_holder(caller, id) {
            Err(e) => {
                return Err(e);
            },
            Ok(i) => i,
        };
        let ghost old_view = self@;
        let ghost old_tags = self@.policies[i as int].tags;
        let mut current = copy_strings(&self.policies[i].tags);
        let mut k: usize = 0;
        while k < tags.len()
            invariant
                k <= tags@.len(),
                current@ == tags_after_add(old_tags, tags@.take(k as int)),
                tags_distinct(current@),
            decreases tags@.len() - k,
        {
            proof {
                assert(tags@.take(k + 1).drop_last() =~= tags@.take(k as int));
            }
            if !contains_tag(&current, &tags[k]) {
                current.push(tags[k].clone());
            }
            k = k + 1;
        }
        proof {
            assert(tags@.take(k as int) =~= tags@);
        }
        self.policies[i].tags = current;
        proof {
            assert(self@.policies =~= retagged(
                old_view,
                id,
                tags_after_add(old_tags, tags@),
            ).policies);
        }
        Ok(())
    }

    /// Takes away from policy `id` every tag equal to one of `tags`, keeping
    /// the order of the others.
    pub fn remove_tags_from_policy(&mut self, caller: &String, id: u32, tags: &Vec<String>) -> (r:
        Result<(), InsuranceError>)
        requires
            old(self).wf(),
        ensures
            final(self).wf(),
            match holder_error(old(self)@, caller@, id) {
                Some(e) => r == Err::<(), InsuranceError>(e) && final(self)@ == old(self)@,
                None => r is Ok && final(self)@ == retagged(
                    old(self)@,
                    id,
                    tags_after_remove(old(self)@.policies[id - 1].tags, tags@),
                ),
            },
            r is Ok ==> final(self)@.policies[id - 1].tags == old(self)@.policies[id
                - 1].tags.filter(kept_after_removing(tags@)),
            r is Ok ==> forall|t: Seq<char>|
                #[trigger] has_tag(final(self)@.policies[id - 1].tags, t) <==> has_tag(
                    old(self)@.policies[id - 1].tags,
                    t,
                ) && !has_tag(tags@, t),
    {
        let i = match self.check_holder(caller, id) {
            Err(e) => {
                return Err(e);
            },
            Ok(i) => i,
        };
        let ghost old_view = self@;
        let ghost old_tags = self@.policies[i as int].tags;
        let mut kept: Vec<String> = Vec::new();
        let mut k: usize = 0;
        while k < self.policies[i].tags.len()
            invariant
                i < self@.policies.len(),
                self@ == old_view,
                old_tags == self@.policies[i as int].tags,
                tags_distinct(old_tags),
                k <= old_tags.len(),
                kept@ == tags_after_remove(old_tags.take(k as int), tags@),
                tags_distinct(kept@),
                forall|m: int|
                    0 <= m < kept@.len() ==> exists|j: int|
                        0 <= j < k && #[trigger] kept@[m]@ == old_tags[j]@,
            decreases old_tags.len() - k,
        {
            proof {
                assert(old_tags.take(k + 1).drop_last() =~= old_tags.take(k as int));
                assert(old_tags.take(k + 1).last() == old_tags[k as int]);
            }
            let t = &self.policies[i].tags[k];
            if !contains_tag(tags, t) {
                proof {
                    assert forall|m: int| 0 <= m < kept@.len() implies kept@[m]@ != old_tags[k as int]@ by {
                        let j = choose|j: int| 0 <= j < k && kept@[m]@ == old_tags[j]@;
                    }
                }
                kept.push(t.clone());
            }
            k = k + 1;
        }
        proof {
            assert(old_tags.take(k as int) =~= old_tags);
        }
        self.policies[i].tags = kept;
        proof {
            assert(self@.policies =~= retagged(
                old_view,
                id,
                tags_after_remove(old_tags, tags@),
            ).policies);
            lemma_remove_is_filter(old_tags, tags@);
            lemma_remove_membership_all(old_tags, tags@);
        }
        Ok(())
    }

    /// The page of `owner`'s active policies whose ids are above `cursor`, in
    /// id order.
    pub fn get_active_policies(&self, owner: &String, cursor: u32, limit: u32) -> (page: PolicyPage)
        requires
            self.wf(),
        ensures
            views(page.items@) == active_page(self@.policies, owner@, cursor, limit),
            page.next_cursor == active_page_cursor(self@.policies, owner@, cursor, limit),
            page.count == page.items@.len(),
            page.count <= MAX_PAGE_LIMIT,
    {
        let lim = clamp_limit(limit);
        let n = self.policies.len();
        let start: usize = if (cursor as usize) < n {
            cursor as usize
        } else {
            n
        };
        let ghost ps = self@.policies;
        let mut items: Vec<Policy> = Vec::new();
        let mut i: usize = start;
        while i < n && items.len() < lim as usize
            invariant
                self.wf(),
                ps == self@.policies,
                n == ps.len(),
                start <= i <= n,
                lim as nat == effective_limit(limit),
                items@.len() <= lim,
                views(items@) =~= active_of(ps.subrange(start as int, i as int), owner@),
            decreases n - i,
        {
            proof {
                assert(ps.subrange(start as int, i + 1).drop_last() =~= ps.subrange(
                    start as int,
                    i as int,
                ));
            }
            if self.policies[i].active && self.policies[i].owner == *owner {
                items.push(self.policies[i].copy());
            }
            i = i + 1;
        }
        proof {
            let found = active_of(ps.subrange(start as int, i as int), owner@);
            let rest = active_of(ps.subrange(i as int, n as int), owner@);
            assert(ps.subrange(start as int, n as int) =~= ps.subrange(start as int, i as int)
                + ps.subrange(i as int, n as int));
            lemma_active_of_concat(
                ps.subrange(start as int, i as int),
                ps.subrange(i as int, n as int),
                owner@,
            );
            if i == n {
                assert(ps.subrange(i as int, n as int) =~= Seq::<PolicyView>::empty());
                assert(rest =~= Seq::<PolicyView>::empty());
            }
            if start == n {
                assert(found =~= Seq::<PolicyView>::empty());
            }
            assert(views(items@) =~= active_page(ps, owner@, cursor, limit));
        }
        let count = items.len() as u32;
        let next_cursor = if count == lim {
            items[items.len() - 1].id
        } else {
            0
        };
        PolicyPage { items, next_cursor, count }
    }

    /// The sum of the monthly premiums of `owner`'s active policies.
    pub fn get_total_monthly_premium(&self, owner: &String) -> (r: i128)
        requires
            self.wf(),
        ensures
            r == premium_sum(active_of(self@.policies, owner@)),
    {
        let ghost ps = self@.policies;
        let mut total: i128 = 0;
        let mut i: usize = 0;
        while i < self.policies.len()
            invariant
                self.wf(),
                ps == self@.policies,
                i <= ps.len(),
                total == premium_sum(active_of(ps.take(i as int), owner@)),
                0 <= total <= i * MAX_MONTHLY_PREMIUM,
            decreases ps.len() - i,
        {
            proof {
                assert(ps.take(i + 1).drop_last() =~= ps.take(i as int));
                assert(ps.take(i + 1).last() == ps[i as int]);
                let prev = active_of(ps.take(i as int), owner@);
                assert(prev.push(ps[i as int]).drop_last() =~= prev);
                assert(ps[i as int].id == i + 1);
            }
            if self.policies[i].active && self.policies[i].owner == *owner {
                total = total + self.policies[i].monthly_premium;
            }
            i = i + 1;
        }
        proof {
            assert(ps.take(i as int) =~= ps);
        }
        total
    }
}

/// Whether no two of `tags` are equal.
fn tags_are_distinct(tags: &Vec<String>) -> (r: bool)
    ensures
        r == tags_distinct(tags@),
{
    let mut j: usize = 0;
    while j < tags.len()
        invariant
            j <= tags@.len(),
            forall|a: int, b: int| 0 <= a < b < j ==> tags@[a]@ != tags@[b]@,
        decreases tags@.len() - j,
    {
        let mut k: usize = 0;
        while k < j
            invariant
                j < tags@.len(),
                k <= j,
                forall|a: int| 0 <= a < k ==> tags@[a]@ != tags@[j as int]@,
            decreases j - k,
        {
            if tags[k] == tags[j] {
                return false;
            }
            k = k + 1;
        }
        j = j + 1;
    }
    true
}

/// Whether one of `tags` is equal to `t`.
fn contains_tag(tags: &Vec<String>, t: &String) -> (r: bool)
    ensures
        r == has_tag(tags@, t@),
{
    let mut k: usize = 0;
    while k < tags.len()
        invariant
            k <= tags@.len(),
            forall|j: int| 0 <= j < k ==> tags@[j]@ != t@,
        decreases tags@.len() - k,
    {
        if tags[k] == *t {
            return true;
        }
        k = k + 1;
    }
    false
}

/// The state after policy `id` is deactivated.
pub open spec fn deactivated(s: InsuranceState, id: u32) -> InsuranceState {
    let i = id - 1;
    InsuranceState {
        policies: s.policies.update(i, PolicyView { active: false, ..s.policies[i] }),
        ..s
    }
}

/// The state after the tags of policy `id` become `tags`.
pub open spec fn retagged(s: InsuranceState, id: u32, tags: Seq<String>) -> InsuranceState {
    let i = id - 1;
    InsuranceState { policies: s.policies.update(i, PolicyView { tags, ..s.policies[i] }), ..s }
}

/// Policy ids of a well-formed list are their positions plus one.
pub open spec fn ids_positional(ps: Seq<PolicyView>) -> bool {
    forall|i: int| 0 <= i < ps.len() ==> #[trigger] ps[i].id == i + 1
}

/// The active policies taken from positions `a..b` of a positionally
/// numbered list have ids in `a + 1 ..= b`, in strictly increasing order.
pub proof fn lemma_active_of_ids(ps: Seq<PolicyView>, owner: Seq<char>, a: int, b: int)
    requires
        ids_positional(ps),
        0 <= a <= b <= ps.len(),
    ensures
        forall|k: int|
            0 <= k < active_of(ps.subrange(a, b), owner).len() ==> a < #[trigger] active_of(
                ps.subrange(a, b),
                owner,
            )[k].id <= b,
        forall|k: int, l: int|
            0 <= k < l < active_of(ps.subrange(a, b), owner).len() ==> #[trigger] active_of(
                ps.subrange(a, b),
                owner,
            )[k].id < #[trigger] active_of(ps.subrange(a, b), owner)[l].id,
    decreases b - a,
{
    if a < b {
        lemma_active_of_ids(ps, owner, a, b - 1);
        assert(ps.subrange(a, b).drop_last() =~= ps.subrange(a, b - 1));
        assert(ps.subrange(a, b).last() == ps[b - 1]);
    }
}

/// The premiums of a concatenation add up.
pub proof fn lemma_premium_sum_concat(a: Seq<PolicyView>, b: Seq<PolicyView>)
    ensures
        premium_sum(a + b) == premium_sum(a) + premium_sum(b),
    decreases b.len(),
{
    if b.len() == 0 {
        assert(a + b =~= a);
    } else {
        assert((a + b).drop_last() =~= a + b.drop_last());
        lemma_premium_sum_concat(a, b.drop_last());
    }
}

/// Creating a policy and then reading it back gives the policy that was
/// created, under the id that creation returned.
pub proof fn lemma_created_policy_readable(s: InsuranceState, p: PolicyView)
    requires
        state_wf(s),
        p.id == s.policies.len() + 1,
    ensures
        policy_index(InsuranceState { policies: s.policies.push(p), ..s }, p.id) == Some(
            s.policies.len() as int,
        ),
        (InsuranceState { policies: s.policies.push(p), ..s }).policies[p.id - 1] == p,
{
}

/// A deactivated policy no longer takes premium payments.
pub proof fn lemma_deactivated_refuses_payment(s: InsuranceState, caller: Seq<char>, id: u32)
    requires
        state_wf(s),
        holder_error(s, caller, id) is None,
    ensures
        pay_error(deactivated(s, id), caller, id) == Some(InsuranceError::PolicyInactive),
{
}

/// Deactivating an active policy takes exactly its premium out of its
/// holder's monthly total, and leaves every other holder's total unchanged.
pub proof fn lemma_deactivation_lowers_total(s: InsuranceState, id: u32, owner: Seq<char>)
    requires
        state_wf(s),
        policy_index(s, id) is Some,
    ensures
        premium_sum(active_of(deactivated(s, id).policies, owner)) == premium_sum(
            active_of(s.policies, owner),
        ) - (if active_for(s.policies[id - 1], owner) {
            s.policies[id - 1].monthly_premium as int
        } else {
            0
        }),
{
    let i = id - 1;
    let ps = s.policies;
    let qs = deactivated(s, id).policies;
    let pre = ps.subrange(0, i);
    let post = ps.subrange(i + 1, ps.len() as int);
    assert(ps =~= pre.push(ps[i]) + post);
    assert(qs =~= pre.push(qs[i]) + post);
    lemma_active_of_concat(pre.push(ps[i]), post, owner);
    lemma_active_of_concat(pre.push(qs[i]), post, owner);
    assert(pre.push(ps[i]).drop_last() =~= pre);
    assert(pre.push(qs[i]).drop_last() =~= pre);
    let before = active_of(pre, owner);
    lemma_premium_sum_concat(active_of(pre.push(ps[i]), owner), active_of(post, owner));
    lemma_premium_sum_concat(active_of(pre.push(qs[i]), owner), active_of(post, owner));
    assert(before.push(ps[i]).drop_last() =~= before);
}

/// Following the cursors of the active-policy pages: a page that carries a
/// cursor is followed by exactly the active policies after that cursor, and a
/// page that carries `0` holds all the remaining ones.  So reading pages from
/// any cursor until the cursor `0` lists every active policy after it once,
/// in id order.
pub proof fn lemma_active_pages_continue(
    s: InsuranceState,
    owner: Seq<char>,
    cursor: u32,
    limit: u32,
)
    requires
        state_wf(s),
    ensures
        active_page_cursor(s.policies, owner, cursor, limit) == 0 ==> active_page(
            s.policies,
            owner,
            cursor,
            limit,
        ) == active_after(s.policies, owner, cursor),
        active_page_cursor(s.policies, owner, cursor, limit) != 0 ==> {
            &&& active_page_cursor(s.policies, owner, cursor, limit) > cursor
            &&& active_after(s.policies, owner, cursor) == active_page(
                s.policies,
                owner,
                cursor,
                limit,
            ) + active_after(
                s.policies,
                owner,
                active_page_cursor(s.policies, owner, cursor, limit),
            )
        },
{
    let ps = s.policies;
    let n = ps.len() as int;
    let lim = effective_limit(limit) as int;
    let c = active_after(ps, owner, cursor);
    let page = active_page(ps, owner, cursor, limit);
    let next = active_page_cursor(ps, owner, cursor, limit);
    assert(ids_positional(ps));
    if cursor < n {
        lemma_active_of_ids(ps, owner, cursor as int, n);
    }
    if c.len() <= lim {
        assert(page == c);
        if next != 0 {
            // The page is full, so the whole rest is on it.
            let l = page.last().id as int;
            assert(c[c.len() - 1].id == l);
            assert(cursor < l <= n);
            lemma_active_of_ids(ps, owner, l, n);
            lemma_active_of_concat(
                ps.subrange(cursor as int, l),
                ps.subrange(l, n),
                owner,
            );
            assert(ps.subrange(cursor as int, n) =~= ps.subrange(cursor as int, l) + ps.subrange(
                l,
                n,
            ));
            let a = active_of(ps.subrange(cursor as int, l), owner);
            let b = active_of(ps.subrange(l, n), owner);
            lemma_active_of_ids(ps, owner, cursor as int, l);
            if b.len() > 0 {
                assert(c[a.len() as int] == b[0]);
                assert(b[0].id > l);
                if a.len() > 0 {
                    assert(c[a.len() - 1].id < c[a.len() as int].id);
                }
                assert(c[c.len() - 1].id >= c[a.len() as int].id);
                assert(false);
            }
            if l < n {
                assert(active_after(ps, owner, next) == b);
            } else {
                assert(active_after(ps, owner, next) =~= Seq::<PolicyView>::empty());
            }
            assert(b =~= Seq::<PolicyView>::empty());
            assert(c =~= page + active_after(ps, owner, next));
        }
    } else {
        assert(page == c.take(lim));
        assert(page.len() == lim);
        let l = page.last().id as int;
        assert(page[lim - 1] == c[lim - 1]);
        assert(cursor < l <= n);
        lemma_active_of_ids(ps, owner, l, n);
        lemma_active_of_ids(ps, owner, cursor as int, l);
        lemma_active_of_concat(ps.subrange(cursor as int, l), ps.subrange(l, n), owner);
        assert(ps.subrange(cursor as int, n) =~= ps.subrange(cursor as int, l) + ps.subrange(l, n));
        let a = active_of(ps.subrange(cursor as int, l), owner);
        let b = active_of(ps.subrange(l, n), owner);
        assert(c == a + b);
        // The item with id `l` is the last one of `a`.
        if a.len() < lim {
            assert(c[lim - 1] == b[lim - 1 - a.len()]);
            assert(b[lim - 1 - a.len()].id > l);
            assert(false);
        }
        if a.len() > lim {
            assert(c[lim] == a[lim]);
            assert(c[lim - 1].id < c[lim].id);
            assert(a[lim].id <= l);
            assert(false);
        }
        assert(a.len() == lim);
        assert(page =~= a);
        if l < n {
            assert(active_after(ps, owner, next) == b);
        } else {
            assert(ps.subrange(l, n) =~= Seq::<PolicyView>::empty());
            assert(b =~= Seq::<PolicyView>::empty());
            assert(active_after(ps, owner, next) =~= Seq::<PolicyView>::empty());
        }
        assert(c =~= page + active_after(ps, owner, next));
    }
}

/// Every policy on a page of active policies is an active policy of `owner`
/// with an id above the cursor, and the page is in increasing id order.
pub proof fn lemma_active_page_members(s: InsuranceState, owner: Seq<char>, cursor: u32, limit: u32)
    requires
        state_wf(s),
    ensures
        active_page(s.policies, owner, cursor, limit).len() <= MAX_PAGE_LIMIT,
        forall|k: int|
            0 <= k < active_page(s.policies, owner, cursor, limit).len() ==> {
                &&& active_for(#[trigger] active_page(s.policies, owner, cursor, limit)[k], owner)
                &&& active_page(s.policies, owner, cursor, limit)[k].id > cursor
                &&& s.policies.contains(active_page(s.policies, owner, cursor, limit)[k])
            },
        forall|k: int, l: int|
            0 <= k < l < active_page(s.policies, owner, cursor, limit).len() ==> #[trigger] active_page(
                s.policies,
                owner,
                cursor,
                limit,
            )[k].id < #[trigger] active_page(s.policies, owner, cursor, limit)[l].id,
{
    let ps = s.policies;
    let n = ps.len() as int;
    assert(ids_positional(ps));
    if cursor < n {
        lemma_active_of_ids(ps, owner, cursor as int, n);
        lemma_active_of_members(ps.subrange(cursor as int, n), owner);
        let c = active_after(ps, owner, cursor);
        assert forall|k: int| 0 <= k < c.len() implies ps.contains(#[trigger] c[k]) by {
            assert(ps.subrange(cursor as int, n).contains(c[k]));
            let j = choose|j: int| 0 <= j < n - cursor && ps.subrange(cursor as int, n)[j] == c[k];
            assert(ps[cursor + j] == c[k]);
        }
    }
}

/// Adding tags and then removing the same tags leaves a policy with the tags
/// it would have if only the removal had happened: nothing else is touched.
pub proof fn lemma_add_then_remove_tags(tags: Seq<String>, new: Seq<String>)
    ensures
        tags_after_remove(tags_after_add(tags, new), new) == tags_after_remove(tags, new),
{
    lemma_remove_absorbs_add(tags, new, new);
}

/// Removing a set of tags that covers every added tag undoes the additions.
proof fn lemma_remove_absorbs_add(tags: Seq<String>, new: Seq<String>, removed: Seq<String>)
    requires
        forall|k: int| 0 <= k < new.len() ==> has_tag(removed, #[trigger] new[k]@),
    ensures
        tags_after_remove(tags_after_add(tags, new), removed) == tags_after_remove(tags, removed),
    decreases new.len(),
{
    if new.len() > 0 {
        let prev = tags_after_add(tags, new.drop_last());
        assert forall|k: int| 0 <= k < new.drop_last().len() implies has_tag(
            removed,
            #[trigger] new.drop_last()[k]@,
        ) by {
            assert(new.drop_last()[k] == new[k]);
        }
        lemma_remove_absorbs_add(tags, new.drop_last(), removed);
        if !has_tag(prev, new.last()@) {
            assert(prev.push(new.last()).drop_last() =~= prev);
            assert(has_tag(removed, new[new.len() - 1]@));
        }
    }
}

/// After tags are added, each of them is on the policy; after tags are
/// removed, none of them is.
pub proof fn lemma_tag_membership(tags: Seq<String>, new: Seq<String>, t: Seq<char>)
    ensures
        has_tag(new, t) ==> has_tag(tags_after_add(tags, new), t),
        has_tag(tags, t) ==> has_tag(tags_after_add(tags, new), t),
        has_tag(new, t) ==> !has_tag(tags_after_remove(tags, new), t),
{
    lemma_add_keeps(tags, new, t);
    lemma_remove_drops(tags, new, t);
}

proof fn lemma_add_keeps(tags: Seq<String>, new: Seq<String>, t: Seq<char>)
    ensures
        has_tag(new, t) ==> has_tag(tags_after_add(tags, new), t),
        has_tag(tags, t) ==> has_tag(tags_after_add(tags, new), t),
    decreases new.len(),
{
    if new.len() > 0 {
        let prev = tags_after_add(tags, new.drop_last());
        lemma_add_keeps(tags, new.drop_last(), t);
        if has_tag(new, t) {
            let k = choose|k: int| 0 <= k < new.len() && new[k]@ == t;
            if k < new.len() - 1 {
                assert(new.drop_last()[k] == new[k]);
            }
        }
        if !has_tag(prev, new.last()@) {
            let q = prev.push(new.last());
            if has_tag(prev, t) {
                let k = choose|k: int| 0 <= k < prev.len() && prev[k]@ == t;
                assert(q[k] == prev[k]);
            }
            assert(q[prev.len() as int] == new.last());
        }
    }
}

proof fn lemma_remove_drops(tags: Seq<String>, removed: Seq<String>, t: Seq<char>)
    ensures
        has_tag(removed, t) ==> !has_tag(tags_after_remove(tags, removed), t),
    decreases tags.len(),
{
    if tags.len() > 0 {
        let prev = tags_after_remove(tags.drop_last(), removed);
        lemma_remove_drops(tags.drop_last(), removed, t);
        if has_tag(removed, t) && !has_tag(removed, tags.last()@) {
            let q = prev.push(tags.last());
            assert forall|k: int| 0 <= k < q.len() implies q[k]@ != t by {
                if k < prev.len() {
                    assert(q[k] == prev[k]);
                }
            }
        }
    }
}

/// A name is accepted exactly when its UTF-8 encoding is between 1 and
/// `MAX_NAME_LEN` bytes long; nothing else about it matters.
pub proof fn lemma_name_valid_exact(name: &String)
    ensures
        name_valid(name) <==> 1 <= vstd::utf8::encode_utf8(name@).len() <= MAX_NAME_LEN,
{
}

/// `lemma_remove_membership` for every tag at once.
proof fn lemma_remove_membership_all(tags: Seq<String>, removed: Seq<String>)
    ensures
        forall|t: Seq<char>|
            #[trigger] has_tag(tags_after_remove(tags, removed), t) <==> has_tag(tags, t)
                && !has_tag(removed, t),
{
    assert forall|t: Seq<char>|
        #[trigger] has_tag(tags_after_remove(tags, removed), t) <==> has_tag(tags, t) && !has_tag(
            removed,
            t,
        ) by {
        lemma_remove_membership(tags, removed, t);
    }
}

/// Keeps a tag unless it equals one of `removed`.
pub open spec fn kept_after_removing(removed: Seq<String>) -> spec_fn(String) -> bool {
    |x: String| !has_tag(removed, x@)
}

/// Removing tags keeps exactly the tags that are not removed, in their
/// order: it is the filter of the list by "not among the removed ones".
pub proof fn lemma_remove_is_filter(tags: Seq<String>, removed: Seq<String>)
    ensures
        tags_after_remove(tags, removed) == tags.filter(kept_after_removing(removed)),
    decreases tags.len(),
{
    reveal(Seq::filter);
    if tags.len() > 0 {
        lemma_remove_is_filter(tags.drop_last(), removed);
    }
}

/// After removing tags, a tag is on the policy exactly when it was there
/// before and is not one of the removed ones.
pub proof fn lemma_remove_membership(tags: Seq<String>, removed: Seq<String>, t: Seq<char>)
    ensures
        has_tag(tags_after_remove(tags, removed), t) <==> has_tag(tags, t) && !has_tag(removed, t),
    decreases tags.len(),
{
    if tags.len() > 0 {
        let prev = tags_after_remove(tags.drop_last(), removed);
        lemma_remove_membership(tags.drop_last(), removed, t);
        let res = tags_after_remove(tags, removed);
        if has_tag(res, t) {
            let k = choose|k: int| 0 <= k < res.len() && res[k]@ == t;
            if k < prev.len() {
                assert(res[k] == prev[k]);
                let j = choose|j: int| 0 <= j < tags.drop_last().len() && tags.drop_last()[j]@ == t;
                assert(tags[j] == tags.drop_last()[j]);
            } else {
                assert(res[k] == tags.last());
                assert(tags[tags.len() - 1] == tags.last());
            }
        }
        if has_tag(tags, t) && !has_tag(removed, t) {
            let j = choose|j: int| 0 <= j < tags.len() && tags[j]@ == t;
            if j < tags.len() - 1 {
                assert(tags.drop_last()[j] == tags[j]);
                let k = choose|k: int| 0 <= k < prev.len() && prev[k]@ == t;
                if !has_tag(removed, tags.last()@) {
                    assert(res[k] == prev[k]);
                }
            } else {
                assert(!has_tag(removed, tags.last()@));
                assert(res[prev.len() as int] == tags.last());
            }
        }
    }
}

/// Adding tags keeps the old tags first and in order, and afterwards a tag
/// is on the policy exactly when it was there before or was added.
pub proof fn lemma_add_tags_exact(tags: Seq<String>, new: Seq<String>, t: Seq<char>)
    ensures
        tags_after_add(tags, new).len() >= tags.len(),
        tags_after_add(tags, new).take(tags.len() as int) == tags,
        has_tag(tags_after_add(tags, new), t) <==> has_tag(tags, t) || has_tag(new, t),
    decreases new.len(),
{
    lemma_add_keeps(tags, new, t);
    if new.len() > 0 {
        let prev = tags_after_add(tags, new.drop_last());
        lemma_add_tags_exact(tags, new.drop_last(), t);
        let res = tags_after_add(tags, new);
        if !has_tag(prev, new.last()@) {
            assert(res.take(tags.len() as int) =~= prev.take(tags.len() as int));
        }
        if has_tag(res, t) && !has_tag(prev, t) {
            let k = choose|k: int| 0 <= k < res.len() && res[k]@ == t;
            assert(k == prev.len());
            assert(new[new.len() - 1] == new.last());
        }
        if has_tag(prev, t) {
            let k = choose|k: int| 0 <= k < prev.len() && prev[k]@ == t;
            if has_tag(new.drop_last(), t) {
                let j = choose|j: int| 0 <= j < new.drop_last().len() && new.drop_last()[j]@ == t;
                assert(new[j] == new.drop_last()[j]);
            }
        }
    } else {
        assert(tags.take(tags.len() as int) =~= tags);
    }
}

} // verus!
