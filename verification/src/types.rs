use vstd::prelude::*;

verus! {

/// Which DEX a routing pool belongs to.
#[derive(Debug, Clone, Copy, PartialEq, Eq, Hash, Structural)]
pub enum DexProtocol {
    Whirlpool,
    Raydium,
    Meteora,
}

/// Broad classification of the AMM mechanism of a routing pool.
#[derive(Debug, Clone, Copy, PartialEq, Eq, Hash, Structural)]
pub enum PoolType {
    /// Standard constant-product (x * y = k) AMM.
    Amm,
    /// Concentrated-liquidity market maker (tick-based).
    ConcentratedLiquidity,
    /// Discretized liquidity bins.
    Dlmm,
}

/// Minimal token information needed for routing.
#[derive(Debug, Clone)]
pub struct TokenMint {
    /// SPL token mint address (base58).
    pub mint: String,
    /// Human-readable symbol; may be empty.
    pub symbol: String,
    pub decimals: u8,
}

/// A protocol-agnostic pool, the edge type of the routing graph.
///
/// The fee rate and TVL are IEEE-754 `f64` values kept as their bit patterns:
/// the routing logic here never does arithmetic on them.
#[derive(Debug, Clone)]
pub struct PoolEdge {
    /// On-chain pool / market address (base58).
    pub address: String,
    pub dex: DexProtocol,
    pub token_a: TokenMint,
    pub token_b: TokenMint,
    /// Bits of the trading fee as a fraction (e.g. 0.003).
    pub fee_rate_bits: u64,
    /// Bits of the total value locked, in USD.
    pub tvl_bits: u64,
    pub pool_type: PoolType,
}

impl TokenMint {
    /// A copy of this token.
    pub fn duplicate(&self) -> (r: Self)
        ensures
            r == *self,
    {
        TokenMint { mint: self.mint.clone(), symbol: self.symbol.clone(), decimals: self.decimals }
    }
}

impl PoolEdge {
    /// A copy of this pool.
    pub fn duplicate(&self) -> (r: Self)
        ensures
            r == *self,
    {
        PoolEdge {
            address: self.address.clone(),
            dex: self.dex,
            token_a: self.token_a.duplicate(),
            token_b: self.token_b.duplicate(),
            fee_rate_bits: self.fee_rate_bits,
            tvl_bits: self.tvl_bits,
            pool_type: self.pool_type,
        }
    }
}

/// The largest hop count the route search supports.
pub const MAX_SUPPORTED_HOPS: usize = 4;

/// Hop budget of a route query that does not give one.
pub fn default_max_hops() -> (r: usize)
    ensures
        r == MAX_SUPPORTED_HOPS,
{
    MAX_SUPPORTED_HOPS
}

/// Route count of a route query that does not give one.
pub fn default_limit() -> (r: usize)
    ensures
        r == 20,
{
    20
}

/// Lower-case label of a DEX as the API reports it.
pub open spec fn dex_label_spec(dex: DexProtocol) -> Seq<char> {
    match dex {
        DexProtocol::Whirlpool => "whirlpool"@,
        DexProtocol::Raydium => "raydium"@,
        DexProtocol::Meteora => "meteora"@,
    }
}

/// Lower-case label of a pool type as the API reports it.
pub open spec fn pool_type_label_spec(pool_type: PoolType) -> Seq<char> {
    match pool_type {
        PoolType::Amm => "amm"@,
        PoolType::ConcentratedLiquidity => "clmm"@,
        PoolType::Dlmm => "dlmm"@,
    }
}

pub fn dex_label(dex: DexProtocol) -> (r: &'static str)
    ensures
        r@ == dex_label_spec(dex),
{
    match dex {
        DexProtocol::Whirlpool => "whirlpool",
        DexProtocol::Raydium => "raydium",
        DexProtocol::Meteora => "meteora",
    }
}

pub fn pool_type_label(pool_type: PoolType) -> (r: &'static str)
    ensures
        r@ == pool_type_label_spec(pool_type),
{
    match pool_type {
        PoolType::Amm => "amm",
        PoolType::ConcentratedLiquidity => "clmm",
        PoolType::Dlmm => "dlmm",
    }
}

/// Display name of a DEX (`Whirlpool`, `Raydium`, `Meteora`).
pub fn dex_display_name(dex: DexProtocol) -> (r: &'static str)
    ensures
        r@ == match dex {
            DexProtocol::Whirlpool => "Whirlpool"@,
            DexProtocol::Raydium => "Raydium"@,
            DexProtocol::Meteora => "Meteora"@,
        },
{
    match dex {
        DexProtocol::Whirlpool => "Whirlpool",
        DexProtocol::Raydium => "Raydium",
        DexProtocol::Meteora => "Meteora",
    }
}

/// Display name of a pool type (`AMM`, `CLMM`, `DLMM`).
pub fn pool_type_display_name(pool_type: PoolType) -> (r: &'static str)
    ensures
        r@ == match pool_type {
            PoolType::Amm => "AMM"@,
            PoolType::ConcentratedLiquidity => "CLMM"@,
            PoolType::Dlmm => "DLMM"@,
        },
{
    match pool_type {
        PoolType::Amm => "AMM",
        PoolType::ConcentratedLiquidity => "CLMM",
        PoolType::Dlmm => "DLMM",
    }
}

} // verus!
