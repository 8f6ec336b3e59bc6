use vstd::prelude::*;
use crate::base58::AddressError;
use crate::types::{DexProtocol, PoolType};

verus! {

/// Why a swap simulation could not produce a quote.
#[derive(Debug, Clone, Copy, PartialEq, Eq, Structural)]
pub enum SimulationError {
    MismatchedMint,
    ZeroInput,
    FeeExceedsInput,
    InsufficientLiquidity,
    NoConvergence,
    Overflow,
    UnsupportedPoolType,
}

impl SimulationError {
    /// The error's description, as shown to users.
    pub fn message(&self) -> (r: &'static str)
        ensures
            r@ == match *self {
                SimulationError::MismatchedMint => "input mint is not in the pool"@,
                SimulationError::ZeroInput => "swap input amount is zero"@,
                SimulationError::FeeExceedsInput => "fee exceeds or consumes swap input"@,
                SimulationError::InsufficientLiquidity => "insufficient liquidity"@,
                SimulationError::NoConvergence => "simulation did not converge"@,
                SimulationError::Overflow => "simulation arithmetic overflow"@,
                SimulationError::UnsupportedPoolType => "pool type is unsupported"@,
            },
    {
        match self {
            SimulationError::MismatchedMint => "input mint is not in the pool",
            SimulationError::ZeroInput => "swap input amount is zero",
            SimulationError::FeeExceedsInput => "fee exceeds or consumes swap input",
            SimulationError::InsufficientLiquidity => "insufficient liquidity",
            SimulationError::NoConvergence => "simulation did not converge",
            SimulationError::Overflow => "simulation arithmetic overflow",
            SimulationError::UnsupportedPoolType => "pool type is unsupported",
        }
    }
}

} // verus!

verus! {

/// Why raw on-chain account data could not be decoded.
#[derive(Debug, Clone, Copy, PartialEq, Eq, Structural)]
pub enum AccountDataError {
    /// The account is shorter than its fixed layout; carries the actual length.
    TooShort { len: usize },
    /// A field read would run past the end of the data; carries the field offset.
    OutOfBounds { offset: usize },
    /// The field's end offset does not fit in `usize`.
    OffsetOverflow,
    /// The account does not start with the expected discriminator.
    DiscriminatorMismatch,
    /// The account belongs to another parent account than the one expected.
    ParentMismatch,
    /// A decoded bin id does not fit in `i32`.
    BinIdOutOfRange,
}

} // verus!

verus! {

/// Why a swap hop could not be resolved or encoded.
#[derive(Debug, Clone, Copy, PartialEq, Eq, Structural)]
pub enum EngineError {
    /// No swap encoding exists for this DEX and pool type.
    UnsupportedPool { dex: DexProtocol, pool_type: PoolType },
    /// A built-in program address failed to decode.
    InvalidProgramId,
    /// No bump seed gives a program-derived address for the seeds.
    NoProgramAddress,
    /// The pool address is not a valid base58 32-byte address.
    InvalidPoolAddress(AddressError),
    /// The input mint is neither of the pool's two tokens.
    MintNotInPool,
    /// The pool account is not in the account cache.
    PoolAccountNotCached,
    /// The pool account is shorter than its layout; carries actual and needed lengths.
    AccountTooShort { len: usize, need: usize },
}

} // verus!

verus! {

/// Why no quote could be produced for a request.
#[derive(Debug, Clone, Copy, PartialEq, Eq, Structural)]
pub enum QuoteError {
    /// There was no candidate route to quote.
    NoCandidateRoutes,
    /// Every candidate route came out with no output.
    AllSimulationsFailed,
}

} // verus!
