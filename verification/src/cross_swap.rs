//! The instructions that the on-chain cross-swap program hands to the DEX
//! programs it calls: account lists and argument bytes, per DEX.

pub mod raydium_amm_swap;
pub mod raydium_clmm_swap;
pub mod whirlpool;
