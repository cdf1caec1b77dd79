//! A verified automated-market-maker ledger engine.
//!
//! The engine tracks user token balances and constant-product liquidity
//! pools, and applies mint, add-liquidity, remove-liquidity and swap
//! operations as atomic, all-or-nothing state transitions. Alongside it live
//! a small identity-verification ledger and the pure decision logic of the
//! proof-authentication flow; all I/O stays outside this crate.

pub mod amm;
pub mod digits;
pub mod identity;
pub mod math;
pub mod noir;
pub mod order;
