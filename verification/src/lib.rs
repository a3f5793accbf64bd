//! A constant-product automated-market-maker pool ledger.
//!
//! The ledger holds two token reserves, the constant-product invariant, the
//! total supply of liquidity-provider shares, and each provider's share
//! balance. Deposits, withdrawals and swaps are whole-operation transactions:
//! they either update every field consistently or leave the pool unchanged
//! and report an error.
//!
//! All quantities are unsigned fixed-point integers: a caller picks a number
//! of subunits per token and uses it consistently. Ratios are compared by
//! exact cross-multiplication, so there is no rounding tolerance anywhere;
//! where a real-valued formula does not land on an integer, the ledger
//! rounds down.

pub mod laws;
pub mod math;
pub mod pool;
