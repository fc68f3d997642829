//! A single-asset liquidity pool over exact fixed-point amounts.
//!
//! `decimal` holds the fixed-point number type and its checked arithmetic;
//! `pool` holds the pool state machine built on it.

pub mod error;
pub mod decimal;
pub mod pool;
