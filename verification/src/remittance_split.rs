//! Splitting a remittance between four accounts, with replay protection and a
//! bounded audit trail.
//!
//! The owner fixes once how a remittance is divided between spending,
//! savings, bills and insurance.  Every distribution request carries the
//! owner's next nonce, a deadline and a request hash that binds them
//! together; a request that fails any check is refused and leaves the split
//! untouched.  Every distribution attempt, refused or not, is written to an
//! audit trail that keeps the latest `MAX_AUDIT_ENTRIES` entries and is read
//! page by page.
use vstd::prelude::*;

use crate::pagination::{
    page_count, page_items, page_next_cursor, page_window, MAX_PAGE_LIMIT,
};

verus! {

/// Number of entries the audit trail keeps; older entries are dropped first.
pub const MAX_AUDIT_ENTRIES: usize = 100;

/// Starting value of the request hash.
pub const HASH_OFFSET_BASIS: u64 = 0xcbf2_9ce4_8422_2325;

/// Multiplier applied after every word mixed into the request hash.
pub const HASH_PRIME: u64 = 0x0000_0100_0000_01b3;

/// Why a request was refused.
#[derive(Clone, Copy, Debug, PartialEq, Eq, Structural)]
pub enum SplitError {
    AlreadyInitialized,
    NotInitialized,
    Unauthorized,
    InvalidNonce,
    InvalidPercentages,
    InvalidAmount,
    DeadlineExpired,
    InvalidRequestHash,
    TokenMismatch,
}

/// The operations recorded in the audit trail.
#[derive(Clone, Copy, Debug, PartialEq, Eq, Structural)]
pub enum AuditOperation {
    Distribute,
}

/// The word that stands for an operation in a request hash (the ASCII text
/// `distrib` for a distribution).
pub open spec fn operation_code(op: AuditOperation) -> u64 {
    match op {
        AuditOperation::Distribute => 0x0064_6973_7472_6962u64,
    }
}

impl AuditOperation {
    /// The word that stands for this operation in a request hash.
    pub fn code(&self) -> (c: u64)
        ensures
            c == operation_code(*self),
    {
        match self {
            AuditOperation::Distribute => 0x0064_6973_7472_6962u64,
        }
    }
}

/// How a remittance is divided, in percent, and who may distribute it.
pub struct SplitConfig {
    pub owner: String,
    pub usdc_contract: String,
    pub spending_percent: u32,
    pub savings_percent: u32,
    pub bills_percent: u32,
    pub insurance_percent: u32,
}

impl SplitConfig {
    /// A copy of this configuration.
    pub fn copy(&self) -> (r: SplitConfig)
        ensures
            r == *self,
    {
        SplitConfig {
            owner: self.owner.clone(),
            usdc_contract: self.usdc_contract.clone(),
            spending_percent: self.spending_percent,
            savings_percent: self.savings_percent,
            bills_percent: self.bills_percent,
            insurance_percent: self.insurance_percent,
        }
    }
}

/// The four percentages of a split add up to one hundred.
pub open spec fn percentages_valid(spending: u32, savings: u32, bills: u32, insurance: u32) -> bool {
    spending + savings + bills + insurance == 100
}

/// The amounts that one remittance is split into.
#[derive(Clone, Copy, Debug, PartialEq, Eq, Structural)]
pub struct SplitAmounts {
    pub spending: i128,
    pub savings: i128,
    pub bills: i128,
    pub insurance: i128,
}

/// The share of `total` that `percent` percent stands for, rounded down.
pub open spec fn share(total: int, percent: int) -> int {
    (total * percent) / 100
}

/// The split of `total` under `cfg`: spending, savings and bills get their
/// share rounded down, and insurance gets whatever is left, so that nothing
/// is lost to rounding.
pub open spec fn split_of(cfg: SplitConfig, total: i128) -> SplitAmounts {
    let spending = share(total as int, cfg.spending_percent as int);
    let savings = share(total as int, cfg.savings_percent as int);
    let bills = share(total as int, cfg.bills_percent as int);
    SplitAmounts {
        spending: spending as i128,
        savings: savings as i128,
        bills: bills as i128,
        insurance: (total - spending - savings - bills) as i128,
    }
}

/// The accounts that receive the four parts of a remittance.
pub struct AccountGroup {
    pub spending: String,
    pub savings: String,
    pub bills: String,
    pub insurance: String,
}

/// One token transfer that a distribution asks for.
pub struct Transfer {
    pub to: String,
    pub amount: i128,
}

/// The transfers that carry out a split: spending, savings, bills and
/// insurance, in that order.
pub open spec fn transfers_of(accounts: AccountGroup, amounts: SplitAmounts) -> Seq<Transfer> {
    seq![
        Transfer { to: accounts.spending, amount: amounts.spending },
        Transfer { to: accounts.savings, amount: amounts.savings },
        Transfer { to: accounts.bills, amount: amounts.bills },
        Transfer { to: accounts.insurance, amount: amounts.insurance },
    ]
}

/// One line of the audit trail.
pub struct AuditEntry {
    pub operation: AuditOperation,
    pub caller: String,
    pub timestamp: u64,
    pub success: bool,
}

impl AuditEntry {
    /// A copy of this entry.
    pub fn copy(&self) -> (r: AuditEntry)
        ensures
            r == *self,
    {
        AuditEntry {
            operation: self.operation,
            caller: self.caller.clone(),
            timestamp: self.timestamp,
            success: self.success,
        }
    }
}

/// One page of the audit trail.
pub struct AuditPage {
    pub items: Vec<AuditEntry>,
    pub next_cursor: u32,
    pub count: u32,
}

/// The audit trail after `entry` is recorded: the entry goes last, and the
/// oldest entry is dropped when the trail is full.
pub open spec fn record(log: Seq<AuditEntry>, entry: AuditEntry) -> Seq<AuditEntry> {
    if log.len() >= MAX_AUDIT_ENTRIES {
        log.drop_first().push(entry)
    } else {
        log.push(entry)
    }
}

/// One step of the request hash: the word is folded into the state and the
/// state is multiplied by `HASH_PRIME`, wrapping around.
pub open spec fn mix(h: u64, w: u64) -> u64 {
    (h ^ w).wrapping_mul(HASH_PRIME)
}

/// The request hash state after each of `bytes` is mixed in, in order.
pub open spec fn mix_bytes(h: u64, bytes: Seq<u8>) -> u64
    decreases bytes.len(),
{
    if bytes.len() == 0 {
        h
    } else {
        mix(mix_bytes(h, bytes.drop_last()), bytes.last() as u64)
    }
}

/// The hash that a request must carry: the operation, the caller's UTF-8
/// bytes, the nonce, the amount (low then high 64 bits) and the deadline,
/// mixed in that order.
pub open spec fn request_hash(
    op: AuditOperation,
    caller: Seq<char>,
    nonce: u64,
    amount: i128,
    deadline: u64,
) -> u64 {
    let h = mix(HASH_OFFSET_BASIS, operation_code(op));
    let h = mix_bytes(h, vstd::utf8::encode_utf8(caller));
    let h = mix(h, nonce);
    let h = mix(h, amount as u64);
    let h = mix(h, (amount >> 64u32) as u64);
    mix(h, deadline)
}

/// The hash that a client computes for a request and hands in with it.
pub fn compute_request_hash(
    operation: AuditOperation,
    caller: &String,
    nonce: u64,
    amount: i128,
    deadline: u64,
) -> (h: u64)
    ensures
        h == request_hash(operation, caller@, nonce, amount, deadline),
{
    let mut h = (HASH_OFFSET_BASIS ^ operation.code()).wrapping_mul(HASH_PRIME);
    let bytes = caller.as_str().as_bytes();
    let ghost h0 = h;
    let mut i: usize = 0;
    while i < bytes.len()
        invariant
            0 <= i <= bytes@.len(),
            bytes@ == vstd::utf8::encode_utf8(caller@),
            h0 == mix(HASH_OFFSET_BASIS, operation_code(operation)),
            h == mix_bytes(h0, bytes@.take(i as int)),
        decreases bytes@.len() - i,
    {
        proof {
            assert(bytes@.take(i + 1).drop_last() =~= bytes@.take(i as int));
        }
        h = (h ^ (bytes[i] as u64)).wrapping_mul(HASH_PRIME);
        i = i + 1;
    }
    proof {
        assert(bytes@.take(i as int) =~= bytes@);
    }
    h = (h ^ nonce).wrapping_mul(HASH_PRIME);
    h = (h ^ (amount as u64)).wrapping_mul(HASH_PRIME);
    h = (h ^ ((amount >> 64u32) as u64)).wrapping_mul(HASH_PRIME);
    h = (h ^ deadline).wrapping_mul(HASH_PRIME);
    h
}

/// `(total * percent) / 100` splits into the shares of the hundreds and of
/// the remainder of `total`, and stays between `0` and `total`.
proof fn lemma_share(total: int, percent: int)
    requires
        0 <= total,
        0 <= percent <= 100,
    ensures
        share(total, percent) == (total / 100) * percent + ((total % 100) * percent) / 100,
        0 <= (total / 100) * percent <= total,
        0 <= ((total % 100) * percent) / 100 < 100,
        0 <= share(total, percent) <= total,
{
    let q = total / 100;
    let r = total % 100;
    vstd::arithmetic::div_mod::lemma_fundamental_div_mod(total, 100);
    let rp = r * percent;
    assert(0 <= rp <= 99 * 100) by (nonlinear_arith)
        requires
            0 <= r < 100,
            0 <= percent <= 100,
            rp == r * percent,
    ;
    let q2 = rp / 100;
    let r2 = rp % 100;
    vstd::arithmetic::div_mod::lemma_fundamental_div_mod(rp, 100);
    assert(total * percent == (q * percent + q2) * 100 + r2) by (nonlinear_arith)
        requires
            total == 100 * q + r,
            rp == r * percent,
            rp == 100 * q2 + r2,
    ;
    vstd::arithmetic::div_mod::lemma_fundamental_div_mod_converse(
        total * percent,
        100,
        q * percent + q2,
        r2,
    );
    assert(0 <= q * percent <= total) by (nonlinear_arith)
        requires
            total == 100 * q + r,
            0 <= r < 100,
            0 <= q,
            0 <= percent <= 100,
    ;
    assert(0 <= total * percent <= total * 100) by (nonlinear_arith)
        requires
            0 <= total,
            0 <= percent <= 100,
    ;
}

/// The share of a non-negative `total` that `percent` percent stands for,
/// rounded down, computed without overflow.
fn portion(total: i128, percent: u32) -> (r: i128)
    requires
        0 <= total,
        percent <= 100,
    ensures
        r as int == share(total as int, percent as int),
{
    proof {
        lemma_share(total as int, percent as int);
    }
    let p = percent as i128;
    let hundreds = total / 100;
    let rest = total % 100;
    hundreds * p + (rest * p) / 100
}

/// Splits a non-negative `total` according to `cfg`.
pub fn split_amounts(cfg: &SplitConfig, total: i128) -> (r: SplitAmounts)
    requires
        0 <= total,
        percentages_valid(
            cfg.spending_percent,
            cfg.savings_percent,
            cfg.bills_percent,
            cfg.insurance_percent,
        ),
    ensures
        r == split_of(*cfg, total),
        r.spending + r.savings + r.bills + r.insurance == total,
        0 <= r.spending && 0 <= r.savings && 0 <= r.bills && 0 <= r.insurance,
{
    let spending = portion(total, cfg.spending_percent);
    let savings = portion(total, cfg.savings_percent);
    let bills = portion(total, cfg.bills_percent);
    proof {
        lemma_share_sum(
            total as int,
            cfg.spending_percent as int,
            cfg.savings_percent as int,
            cfg.bills_percent as int,
        );
    }
    SplitAmounts { spending, savings, bills, insurance: total - spending - savings - bills }
}

/// The three rounded-down shares never add up to more than `total` when
/// their percentages add up to at most one hundred.
proof fn lemma_share_sum(total: int, a: int, b: int, c: int)
    requires
        0 <= total,
        0 <= a,
        0 <= b,
        0 <= c,
        a + b + c <= 100,
    ensures
        share(total, a) + share(total, b) + share(total, c) <= total,
        0 <= share(total, a),
        0 <= share(total, b),
        0 <= share(total, c),
{
    lemma_share(total, a);
    lemma_share(total, b);
    lemma_share(total, c);
    let sa = share(total, a);
    let sb = share(total, b);
    let sc = share(total, c);
    vstd::arithmetic::div_mod::lemma_fundamental_div_mod(total * a, 100);
    vstd::arithmetic::div_mod::lemma_fundamental_div_mod(total * b, 100);
    vstd::arithmetic::div_mod::lemma_fundamental_div_mod(total * c, 100);
    assert(total * a + total * b + total * c <= total * 100) by (nonlinear_arith)
        requires
            0 <= total,
            a + b + c <= 100,
    ;
    assert(100 * (sa + sb + sc) <= total * a + total * b + total * c);
}

/// What the split contract holds: its configuration once initialized, the
/// owner's next nonce, and the audit trail, oldest entry first.
pub struct SplitState {
    pub config: Option<SplitConfig>,
    pub nonce: u64,
    pub audit_log: Seq<AuditEntry>,
}

/// The audit trail never holds more than `MAX_AUDIT_ENTRIES` entries, the
/// configuration, once there, divides the whole amount, and no nonce has been
/// used before initialization.
pub open spec fn state_wf(s: SplitState) -> bool {
    &&& s.audit_log.len() <= MAX_AUDIT_ENTRIES
    &&& match s.config {
        Some(cfg) => percentages_valid(
            cfg.spending_percent,
            cfg.savings_percent,
            cfg.bills_percent,
            cfg.insurance_percent,
        ),
        None => s.nonce == 0,
    }
}

/// A nonce is accepted when it is the owner's next nonce and that nonce can
/// still be followed by another one.
pub open spec fn nonce_accepted(s: SplitState, nonce: u64) -> bool {
    nonce == s.nonce && s.nonce < u64::MAX
}

/// Why `initialize_split` refuses, if it does.
pub open spec fn initialize_error(
    s: SplitState,
    nonce: u64,
    spending: u32,
    savings: u32,
    bills: u32,
    insurance: u32,
) -> Option<SplitError> {
    if s.config is Some {
        Some(SplitError::AlreadyInitialized)
    } else if !nonce_accepted(s, nonce) {
        Some(SplitError::InvalidNonce)
    } else if !percentages_valid(spending, savings, bills, insurance) {
        Some(SplitError::InvalidPercentages)
    } else {
        None
    }
}

/// Why a distribution request is refused, if it is; the checks are made in
/// this order.
pub open spec fn distribute_error(
    s: SplitState,
    usdc_contract: Seq<char>,
    caller: Seq<char>,
    nonce: u64,
    deadline: u64,
    hash: u64,
    total: i128,
    now: u64,
) -> Option<SplitError> {
    match s.config {
        None => Some(SplitError::NotInitialized),
        Some(cfg) => if caller != cfg.owner@ {
            Some(SplitError::Unauthorized)
        } else if usdc_contract != cfg.usdc_contract@ {
            Some(SplitError::TokenMismatch)
        } else if total <= 0 {
            Some(SplitError::InvalidAmount)
        } else if now > deadline {
            Some(SplitError::DeadlineExpired)
        } else if !nonce_accepted(s, nonce) {
            Some(SplitError::InvalidNonce)
        } else if hash != request_hash(AuditOperation::Distribute, caller, nonce, total, deadline) {
            Some(SplitError::InvalidRequestHash)
        } else {
            None
        },
    }
}

/// The state after a distribution request made by `caller` at time `now`:
/// the attempt is recorded, and an accepted request uses up the nonce.
pub open spec fn distribute_next(
    s: SplitState,
    usdc_contract: Seq<char>,
    caller: String,
    nonce: u64,
    deadline: u64,
    hash: u64,
    total: i128,
    now: u64,
) -> SplitState {
    let accepted = distribute_error(
        s,
        usdc_contract,
        caller@,
        nonce,
        deadline,
        hash,
        total,
        now,
    ) is None;
    SplitState {
        config: s.config,
        nonce: if accepted {
            (s.nonce + 1) as u64
        } else {
            s.nonce
        },
        audit_log: record(
            s.audit_log,
            AuditEntry {
                operation: AuditOperation::Distribute,
                caller,
                timestamp: now,
                success: accepted,
            },
        ),
    }
}

/// The split contract's state.
pub struct RemittanceSplit {
    config: Option<SplitConfig>,
    nonce: u64,
    audit_log: Vec<AuditEntry>,
}

impl View for RemittanceSplit {
    type V = SplitState;

    closed spec fn view(&self) -> SplitState {
        SplitState { config: self.config, nonce: self.nonce, audit_log: self.audit_log@ }
    }
}

impl RemittanceSplit {
    /// The state is well formed (see `state_wf`).
    pub open spec fn wf(&self) -> bool {
        state_wf(self@)
    }

    /// An uninitialized split with an empty audit trail.
    pub fn new() -> (r: RemittanceSplit)
        ensures
            r.wf(),
            r@.config is None,
            r@.nonce == 0,
            r@.audit_log.len() == 0,
    {
        RemittanceSplit { config: None, nonce: 0, audit_log: Vec::new() }
    }

    /// Rebuilds a split from its configuration, nonce and audit trail, as
    /// `into_parts` hands them out; refused (`None`) unless they form a
    /// well-formed state.
    pub fn from_parts(config: Option<SplitConfig>, nonce: u64, audit_log: Vec<AuditEntry>) -> (r:
        Option<RemittanceSplit>)
        ensures
            r is Some <==> state_wf(SplitState { config, nonce, audit_log: audit_log@ }),
            r matches Some(c) ==> c@ == (SplitState { config, nonce, audit_log: audit_log@ }),
            r is Some && config is Some ==> config.unwrap().spending_percent
                + config.unwrap().savings_percent + config.unwrap().bills_percent
                + config.unwrap().insurance_percent == 100,
    {
        if audit_log.len() > MAX_AUDIT_ENTRIES {
            return None;
        }
        match &config {
            Some(cfg) => {
                let sum: u64 = cfg.spending_percent as u64 + cfg.savings_percent as u64
                    + cfg.bills_percent as u64 + cfg.insurance_percent as u64;
                if sum != 100 {
                    return None;
                }
            },
            None => {
                if nonce != 0 {
                    return None;
                }
            },
        }
        Some(RemittanceSplit { config, nonce, audit_log })
    }

    /// The configuration, the next nonce and the audit trail.
    pub fn into_parts(self) -> (r: (Option<SplitConfig>, u64, Vec<AuditEntry>))
        ensures
            r.0 == self@.config,
            r.1 == self@.nonce,
            r.2@ == self@.audit_log,
    {
        (self.config, self.nonce, self.audit_log)
    }

    /// Sets the owner, the token and the percentages once, using the owner's
    /// nonce.
    pub fn initialize_split(
        &mut self,
        owner: &String,
        nonce: u64,
        usdc_contract: &String,
        spending_percent: u32,
        savings_percent: u32,
        bills_percent: u32,
        insurance_percent: u32,
    ) -> (r: Result<(), SplitError>)
        requires
            old(self).wf(),
        ensures
            final(self).wf(),
            final(self)@.audit_log == old(self)@.audit_log,
            match initialize_error(
                old(self)@,
                nonce,
                spending_percent,
                savings_percent,
                bills_percent,
                insurance_percent,
            ) {
                Some(e) => r == Err::<(), SplitError>(e) && final(self)@ == old(self)@,
                None => {
                    &&& r is Ok
                    &&& final(self)@.nonce == old(self)@.nonce + 1
                    &&& final(self)@.config == Some(
                        SplitConfig {
                            owner: *owner,
                            usdc_contract: *usdc_contract,
                            spending_percent,
                            savings_percent,
                            bills_percent,
                            insurance_percent,
                        },
                    )
                },
            },
            r is Ok ==> spending_percent + savings_percent + bills_percent + insurance_percent
                == 100,
            old(self)@.config is None && nonce == old(self)@.nonce && spending_percent
                + savings_percent + bills_percent + insurance_percent != 100 ==> r == Err::<
                (),
                SplitError,
            >(SplitError::InvalidPercentages),
    {
        proof {
            lemma_percentages_exact(
                spending_percent,
                savings_percent,
                bills_percent,
                insurance_percent,
            );
        }
        if self.config.is_some() {
            return Err(SplitError::AlreadyInitialized);
        }
        if nonce != self.nonce || self.nonce == u64::MAX {
            return Err(SplitError::InvalidNonce);
        }
        let sum: u64 = spending_percent as u64 + savings_percent as u64 + bills_percent as u64
            + insurance_percent as u64;
        if sum != 100 {
            return Err(SplitError::InvalidPercentages);
        }
        self.config = Some(
            SplitConfig {
                owner: owner.clone(),
                usdc_contract: usdc_contract.clone(),
                spending_percent,
                savings_percent,
                bills_percent,
                insurance_percent,
            },
        );
        self.nonce = self.nonce + 1;
        Ok(())
    }

    /// The configuration, once the split is initialized.
    pub fn get_config(&self) -> (r: Option<SplitConfig>)
        ensures
            r == self@.config,
    {
        match &self.config {
            Some(cfg) => Some(cfg.copy()),
            None => None,
        }
    }

    /// The nonce that the owner's next request must carry.
    pub fn get_nonce(&self) -> (r: u64)
        ensures
            r == self@.nonce,
    {
        self.nonce
    }

    /// How `total_amount` would be split; refused before initialization and
    /// for amounts that are not positive.
    pub fn calculate_split(&self, total_amount: i128) -> (r: Result<SplitAmounts, SplitError>)
        requires
            self.wf(),
        ensures
            match self@.config {
                None => r == Err::<SplitAmounts, SplitError>(SplitError::NotInitialized),
                Some(cfg) => if total_amount <= 0 {
                    r == Err::<SplitAmounts, SplitError>(SplitError::InvalidAmount)
                } else {
                    r == Ok::<SplitAmounts, SplitError>(split_of(cfg, total_amount))
                },
            },
    {
        match &self.config {
            None => Err(SplitError::NotInitialized),
            Some(cfg) => {
                if total_amount <= 0 {
                    Err(SplitError::InvalidAmount)
                } else {
                    Ok(split_amounts(cfg, total_amount))
                }
            },
        }
    }

    /// Appends an entry to the audit trail, dropping the oldest entry when
    /// the trail is full.
    fn record_entry(&mut self, entry: AuditEntry)
        requires
            old(self).wf(),
        ensures
            final(self)@ == (SplitState {
                audit_log: record(old(self)@.audit_log, entry),
                ..old(self)@
            }),
            final(self).wf(),
    {
        if self.audit_log.len() >= MAX_AUDIT_ENTRIES {
            self.audit_log.remove(0);
            proof {
                assert(self.audit_log@ =~= old(self)@.audit_log.drop_first());
            }
        }
        self.audit_log.push(entry);
    }

    /// Checks a distribution request by the owner and, when it is accepted,
    /// uses up its nonce and returns the four transfers that carry it out.
    /// Every request, accepted or refused, is recorded in the audit trail at
    /// time `now`.
    pub fn distribute_usdc(
        &mut self,
        usdc_contract: &String,
        caller: &String,
        nonce: u64,
        deadline: u64,
        request_hash: u64,
        accounts: &AccountGroup,
        total_amount: i128,
        now: u64,
    ) -> (r: Result<Vec<Transfer>, SplitError>)
        requires
            old(self).wf(),
        ensures
            final(self).wf(),
            final(self)@ == distribute_next(
                old(self)@,
                usdc_contract@,
                *caller,
                nonce,
                deadline,
                request_hash,
                total_amount,
                now,
            ),
            match distribute_error(
                old(self)@,
                usdc_contract@,
                caller@,
                nonce,
                deadline,
                request_hash,
                total_amount,
                now,
            ) {
                Some(e) => r matches Err(e2) && e2 == e,
                None => r matches Ok(ts) && ts@ == transfers_of(
                    *accounts,
                    split_of(old(self)@.config.unwrap(), total_amount),
                ),
            },
            r matches Ok(ts) ==> {
                let cfg = old(self)@.config.unwrap();
                let spending = (total_amount * cfg.spending_percent) / 100;
                let savings = (total_amount * cfg.savings_percent) / 100;
                let bills = (total_amount * cfg.bills_percent) / 100;
                &&& ts@.len() == 4
                &&& ts@[0].to == accounts.spending && ts@[0].amount == spending
                &&& ts@[1].to == accounts.savings && ts@[1].amount == savings
                &&& ts@[2].to == accounts.bills && ts@[2].amount == bills
                &&& ts@[3].to == accounts.insurance && ts@[3].amount == total_amount - spending
                    - savings - bills
            },
    {
        proof {
            if let Some(cfg) = old(self)@.config {
                if total_amount > 0 {
                    lemma_transfers_pay_each_part(*accounts, cfg, total_amount);
                }
            }
        }
        let checked = self.check_distribution(
            usdc_contract,
            caller,
            nonce,
            deadline,
            request_hash,
            total_amount,
            now,
        );
        let result = match checked {
            Err(e) => Err(e),
            Ok(amounts) => {
                self.nonce = self.nonce + 1;
                let mut transfers: Vec<Transfer> = Vec::new();
                transfers.push(
                    Transfer { to: accounts.spending.clone(), amount: amounts.spending },
                );
                transfers.push(Transfer { to: accounts.savings.clone(), amount: amounts.savings });
                transfers.push(Transfer { to: accounts.bills.clone(), amount: amounts.bills });
                transfers.push(
                    Transfer { to: accounts.insurance.clone(), amount: amounts.insurance },
                );
                proof {
                    assert(transfers@ =~= transfers_of(*accounts, amounts));
                }
                Ok(transfers)
            },
        };
        let success = result.is_ok();
        self.record_entry(
            AuditEntry {
                operation: AuditOperation::Distribute,
                caller: caller.clone(),
                timestamp: now,
                success,
            },
        );
        result
    }

    /// The checks of a distribution request, in order, and the split of an
    /// accepted one.
    fn check_distribution(
        &self,
        usdc_contract: &String,
        caller: &String,
        nonce: u64,
        deadline: u64,
        request_hash: u64,
        total_amount: i128,
        now: u64,
    ) -> (r: Result<SplitAmounts, SplitError>)
        requires
            self.wf(),
        ensures
            match distribute_error(
                self@,
                usdc_contract@,
                caller@,
                nonce,
                deadline,
                request_hash,
                total_amount,
                now,
            ) {
                Some(e) => r == Err::<SplitAmounts, SplitError>(e),
                None => r == Ok::<SplitAmounts, SplitError>(
                    split_of(self@.config.unwrap(), total_amount),
                ),
            },
    {
        let cfg = match &self.config {
            None => {
                return Err(SplitError::NotInitialized);
            },
            Some(cfg) => cfg,
        };
        if *caller != cfg.owner {
            return Err(SplitError::Unauthorized);
        }
        if *usdc_contract != cfg.usdc_contract {
            return Err(SplitError::TokenMismatch);
        }
        if total_amount <= 0 {
            return Err(SplitError::InvalidAmount);
        }
        if now > deadline {
            return Err(SplitError::DeadlineExpired);
        }
        if nonce != self.nonce || self.nonce == u64::MAX {
            return Err(SplitError::InvalidNonce);
        }
        let expected = compute_request_hash(
            AuditOperation::Distribute,
            caller,
            nonce,
            total_amount,
            deadline,
        );
        if request_hash != expected {
            return Err(SplitError::InvalidRequestHash);
        }
        Ok(split_amounts(cfg, total_amount))
    }

    /// The page of the audit trail that starts at entry `from_index`.
    pub fn get_audit_log(&self, from_index: u32, limit: u32) -> (page: AuditPage)
        requires
            self.wf(),
        ensures
            page.items@ == page_items(self@.audit_log, from_index as nat, limit),
            page.count as nat == page_count(self@.audit_log.len(), from_index as nat, limit),
            page.next_cursor as nat == page_next_cursor(
                self@.audit_log.len(),
                from_index as nat,
                limit,
            ),
            page.items@.len() == page.count,
            page.count <= MAX_PAGE_LIMIT,
            1 <= limit <= MAX_PAGE_LIMIT && from_index + limit <= self@.audit_log.len() ==> {
                &&& page.count == limit
                &&& page.next_cursor == from_index + limit
                &&& forall|k: int|
                    0 <= k < limit ==> #[trigger] page.items@[k] == self@.audit_log[from_index + k]
            },
    {
        let (count, next_cursor) = page_window(self.audit_log.len(), from_index, limit);
        let mut items: Vec<AuditEntry> = Vec::new();
        let mut k: u32 = 0;
        while k < count
            invariant
                self.wf(),
                count as nat == page_count(self@.audit_log.len(), from_index as nat, limit),
                k <= count,
                count > 0 ==> from_index + count <= self@.audit_log.len(),
                items@ =~= Seq::new(k as nat, |j: int| self@.audit_log[from_index + j]),
            decreases count - k,
        {
            let idx = from_index as usize + k as usize;
            items.push(self.audit_log[idx].copy());
            k = k + 1;
        }
        proof {
            assert(items@ =~= page_items(self@.audit_log, from_index as nat, limit));
        }
        AuditPage { items, next_cursor, count }
    }
}

/// A split never creates or loses money: the four parts are non-negative
/// and add up to the total, and each of the first three is its percentage of
/// the total, rounded down.
pub proof fn lemma_split_conserves(cfg: SplitConfig, total: i128)
    requires
        percentages_valid(
            cfg.spending_percent,
            cfg.savings_percent,
            cfg.bills_percent,
            cfg.insurance_percent,
        ),
        0 <= total,
    ensures
        split_of(cfg, total).spending + split_of(cfg, total).savings + split_of(cfg, total).bills
            + split_of(cfg, total).insurance == total,
        0 <= split_of(cfg, total).spending,
        0 <= split_of(cfg, total).savings,
        0 <= split_of(cfg, total).bills,
        0 <= split_of(cfg, total).insurance,
        split_of(cfg, total).spending == share(total as int, cfg.spending_percent as int),
        split_of(cfg, total).savings == share(total as int, cfg.savings_percent as int),
        split_of(cfg, total).bills == share(total as int, cfg.bills_percent as int),
{
    lemma_share_sum(
        total as int,
        cfg.spending_percent as int,
        cfg.savings_percent as int,
        cfg.bills_percent as int,
    );
}

/// An accepted request cannot be replayed: the same request made again, at
/// any later time, is refused, and refused for its nonce while its deadline
/// has not passed.
pub proof fn lemma_replay_refused(
    s: SplitState,
    usdc_contract: Seq<char>,
    caller: String,
    nonce: u64,
    deadline: u64,
    hash: u64,
    total: i128,
    now: u64,
    later: u64,
)
    requires
        state_wf(s),
        distribute_error(s, usdc_contract, caller@, nonce, deadline, hash, total, now) is None,
    ensures
        distribute_error(
            distribute_next(s, usdc_contract, caller, nonce, deadline, hash, total, now),
            usdc_contract,
            caller@,
            nonce,
            deadline,
            hash,
            total,
            later,
        ) is Some,
        later <= deadline ==> distribute_error(
            distribute_next(s, usdc_contract, caller, nonce, deadline, hash, total, now),
            usdc_contract,
            caller@,
            nonce,
            deadline,
            hash,
            total,
            later,
        ) == Some(SplitError::InvalidNonce),
{
}

/// Nonces move forward one by one: an accepted request advances the owner's
/// nonce by exactly one, and a refused request changes nothing but the audit
/// trail.
pub proof fn lemma_nonce_accounting(
    s: SplitState,
    usdc_contract: Seq<char>,
    caller: String,
    nonce: u64,
    deadline: u64,
    hash: u64,
    total: i128,
    now: u64,
)
    requires
        state_wf(s),
    ensures
        ({
            let next = distribute_next(s, usdc_contract, caller, nonce, deadline, hash, total, now);
            &&& next.config == s.config
            &&& distribute_error(s, usdc_contract, caller@, nonce, deadline, hash, total, now)
                is None ==> next.nonce == s.nonce + 1 && nonce == s.nonce
            &&& distribute_error(s, usdc_contract, caller@, nonce, deadline, hash, total, now)
                is Some ==> next.nonce == s.nonce
            &&& state_wf(next)
        }),
{
}

/// Recording keeps the audit trail within `MAX_AUDIT_ENTRIES` entries: the
/// new entry goes last and is preceded by the newest entries of the old
/// trail, in order.
pub proof fn lemma_record_bounded(log: Seq<AuditEntry>, entry: AuditEntry)
    requires
        log.len() <= MAX_AUDIT_ENTRIES,
    ensures
        record(log, entry).len() <= MAX_AUDIT_ENTRIES,
        record(log, entry).len() == if log.len() < MAX_AUDIT_ENTRIES {
            log.len() + 1
        } else {
            MAX_AUDIT_ENTRIES as nat
        },
        record(log, entry).last() == entry,
        record(log, entry).drop_last() =~= log.skip(log.len() + 1 - record(log, entry).len()),
{
}

/// Every distribution attempt leaves exactly one new entry at the end of the
/// audit trail, naming the caller and the time and telling whether the
/// request was accepted.
pub proof fn lemma_attempt_recorded(
    s: SplitState,
    usdc_contract: Seq<char>,
    caller: String,
    nonce: u64,
    deadline: u64,
    hash: u64,
    total: i128,
    now: u64,
)
    requires
        state_wf(s),
    ensures
        distribute_next(s, usdc_contract, caller, nonce, deadline, hash, total, now).audit_log.last()
            == (AuditEntry {
            operation: AuditOperation::Distribute,
            caller,
            timestamp: now,
            success: distribute_error(s, usdc_contract, caller@, nonce, deadline, hash, total, now)
                is None,
        }),
{
}

/// A split is valid exactly when its four percentages make up the whole
/// amount: they add up to one hundred, no more and no less.
pub proof fn lemma_percentages_exact(spending: u32, savings: u32, bills: u32, insurance: u32)
    ensures
        percentages_valid(spending, savings, bills, insurance) <==> spending + savings + bills
            + insurance == 100,
{
}

/// The transfers of an accepted distribution pay each account its own part:
/// spending, savings and bills get their own percentage of the total, rounded
/// down, and insurance gets what is left, each to the account named for it and
/// in that order.
pub proof fn lemma_transfers_pay_each_part(accounts: AccountGroup, cfg: SplitConfig, total: i128)
    requires
        percentages_valid(
            cfg.spending_percent,
            cfg.savings_percent,
            cfg.bills_percent,
            cfg.insurance_percent,
        ),
        0 < total,
    ensures
        ({
            let ts = transfers_of(accounts, split_of(cfg, total));
            let spending = (total * cfg.spending_percent) / 100;
            let savings = (total * cfg.savings_percent) / 100;
            let bills = (total * cfg.bills_percent) / 100;
            &&& ts.len() == 4
            &&& ts[0].to == accounts.spending && ts[0].amount == spending
            &&& ts[1].to == accounts.savings && ts[1].amount == savings
            &&& ts[2].to == accounts.bills && ts[2].amount == bills
            &&& ts[3].to == accounts.insurance && ts[3].amount == total - spending - savings
                - bills
        }),
{
    lemma_share_sum(
        total as int,
        cfg.spending_percent as int,
        cfg.savings_percent as int,
        cfg.bills_percent as int,
    );
}

} // verus!
