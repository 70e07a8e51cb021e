//! Pricing and referral ranking for a time-windowed asset conversion.
//!
//! The library computes a conversion rate that moves linearly over a fixed
//! window, prices a conversion with an optional referral bonus under a
//! supply-relative cap, keeps per-code referral totals, and ranks codes in a
//! bounded, sorted, doubly linked leaderboard that accepts untrusted
//! position hints.

pub mod math;
pub mod ranking;
pub mod leaderboard;
pub mod rate;
pub mod conversion;
pub mod code;
pub mod ledger;
pub mod swap;
