//! A constant-product liquidity pool over several fungible tokens, with
//! proportional shares for liquidity providers and exact integer arithmetic.
pub mod wide;
pub mod ledger;
pub mod pool;
pub mod laws;
