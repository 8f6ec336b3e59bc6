//! Swap instruction encoding and on-chain account resolution for one route hop,
//! and the choice among quoted routes.

pub mod account_resolver;
pub mod instruction_builder;
pub mod quote;
