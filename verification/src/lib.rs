//! Verified core of a Solana DEX routing engine: integer swap math for
//! constant-product and concentrated-liquidity pools, decoding of on-chain
//! account layouts, swap instruction encoding and route bookkeeping.

pub mod account_data;
pub mod adapters;
pub mod api;
pub mod base58;
pub mod cross_swap;
pub mod decimal;
pub mod engine;
pub mod graph;
pub mod graph_builder;
pub mod error;
pub mod hydration;
pub mod hydration_service;
pub mod pda;
pub mod pool;
pub mod quote_service;
pub mod simulation;
pub mod swap_math;
pub mod types;
pub mod wide;
