//! A proportional reward ledger built on a global reward index per denomination.
//!
//! Participants hold weights; distributions raise a per-denomination index of reward per unit
//! of weight; each participant's share is settled lazily against the index they last observed.

pub mod api;
pub mod claim;
pub mod contract;
pub mod decimal;
pub mod distributing;
pub mod eligibility;
pub mod error;
pub mod laws;
pub mod rewards;
pub mod state;
pub mod user_weights;
