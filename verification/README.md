# remitwise

Verified core of two Soroban contracts for remittance users, written in Verus.

- `src/insurance.rs`: insurance policies (creation with per-coverage limits,
  premium payments, deactivation, tags, paged listings, monthly totals).
- `src/remittance_split.rs`: splitting a remittance between spending, savings,
  bills and insurance, with nonce and request-hash replay protection and a
  bounded, paged audit trail.
- `src/pagination.rs`: the cursor paging shared by both.

`app/` holds the Soroban contract shells: they load the state from ledger
storage, check authorization, read the ledger time, call the library, store the
state back and perform the token transfers.
