use vstd::prelude::*;

pub mod insurance;
pub mod pagination;
pub mod remittance_split;

verus! {

} // verus!
