use vstd::prelude::*;
use crate::error::SimulationError;
use crate::swap_math::{SwapResult, cpmm_quote, clmm_virtual_quote, simulate_cpmm, simulate_clmm_virtual_reserves};

verus! {

/// A 32-byte Solana public key.
#[derive(Debug, Clone, Copy, Eq, Hash, PartialOrd, Ord)]
pub struct PubkeyBytes(pub [u8; 32]);

impl PubkeyBytes {
    /// The key's bytes as a sequence.
    pub open spec fn bytes(self) -> Seq<u8> {
        self.0@
    }

    /// Whether `self` sorts strictly before `other` in byte-wise lexicographic order.
    pub fn is_less_than(&self, other: &PubkeyBytes) -> (r: bool)
        ensures
            r == bytes_lt(self.bytes(), other.bytes(), 0),
    {
        let mut i: usize = 0;
        while i < 32
            invariant
                0 <= i <= 32,
                self.bytes().len() == 32,
                other.bytes().len() == 32,
                bytes_lt(self.bytes(), other.bytes(), 0) == bytes_lt(self.bytes(), other.bytes(), i as nat),
            decreases 32 - i,
        {
            let a = self.0[i];
            let b = other.0[i];
            if a != b {
                return a < b;
            }
            i = i + 1;
        }
        false
    }
}

/// Lexicographic strict order of two equal-length byte strings, from position `i` on.
pub open spec fn bytes_lt(a: Seq<u8>, b: Seq<u8>, i: nat) -> bool
    decreases a.len() - i,
{
    if i >= a.len() || i >= b.len() {
        false
    } else if a[i as int] != b[i as int] {
        a[i as int] < b[i as int]
    } else {
        bytes_lt(a, b, i + 1)
    }
}

/// Byte-wise order is a strict total order on keys of one length: exactly
/// one of `a < b`, `a == b`, `b < a` holds.
pub proof fn lemma_bytes_lt_trichotomy(a: Seq<u8>, b: Seq<u8>, i: nat)
    requires
        a.len() == b.len(),
        i <= a.len(),
    ensures
        bytes_lt(a, b, i) || bytes_lt(b, a, i) || a.subrange(i as int, a.len() as int) == b.subrange(i as int, b.len() as int),
        !(bytes_lt(a, b, i) && bytes_lt(b, a, i)),
        bytes_lt(a, b, i) ==> a.subrange(i as int, a.len() as int) != b.subrange(i as int, b.len() as int),
    decreases a.len() - i,
{
    if i < a.len() {
        lemma_bytes_lt_trichotomy(a, b, i + 1);
        if a[i as int] == b[i as int] {
            if a.subrange(i as int + 1, a.len() as int) == b.subrange(i as int + 1, b.len() as int) {
                assert(a.subrange(i as int, a.len() as int) =~= b.subrange(i as int, b.len() as int)) by {
                    assert forall|k: int| 0 <= k < a.len() - i implies a.subrange(i as int, a.len() as int)[k] == b.subrange(i as int, b.len() as int)[k] by {
                        if k > 0 {
                            assert(a.subrange(i as int + 1, a.len() as int)[k - 1] == b.subrange(i as int + 1, b.len() as int)[k - 1]);
                        }
                    }
                }
            }
            if bytes_lt(a, b, i) {
                if a.subrange(i as int, a.len() as int) == b.subrange(i as int, b.len() as int) {
                    assert(a.subrange(i as int + 1, a.len() as int) =~= a.subrange(i as int, a.len() as int).drop_first());
                    assert(b.subrange(i as int + 1, b.len() as int) =~= b.subrange(i as int, b.len() as int).drop_first());
                }
            }
        } else {
            assert(a.subrange(i as int, a.len() as int)[0] != b.subrange(i as int, b.len() as int)[0]);
        }
    } else {
        assert(a.subrange(i as int, a.len() as int) =~= b.subrange(i as int, b.len() as int));
    }
}

/// Byte-wise order is transitive.
pub proof fn lemma_bytes_lt_transitive(a: Seq<u8>, b: Seq<u8>, c: Seq<u8>, i: nat)
    requires
        a.len() == b.len(),
        b.len() == c.len(),
        bytes_lt(a, b, i),
        bytes_lt(b, c, i),
    ensures
        bytes_lt(a, c, i),
    decreases a.len() - i,
{
    if i < a.len() && a[i as int] == b[i as int] && b[i as int] == c[i as int] {
        lemma_bytes_lt_transitive(a, b, c, i + 1);
    }
}

impl PartialEq for PubkeyBytes {
    fn eq(&self, other: &Self) -> (r: bool) {
        let mut i: usize = 0;
        while i < 32
            invariant
                0 <= i <= 32,
                self.0@.len() == 32,
                other.0@.len() == 32,
                forall|j: int| 0 <= j < i ==> self.0@[j] == other.0@[j],
            decreases 32 - i,
        {
            if self.0[i] != other.0[i] {
                return false;
            }
            i = i + 1;
        }
        assert(self.0@ =~= other.0@);
        true
    }
}

impl vstd::std_specs::cmp::PartialEqSpecImpl for PubkeyBytes {
    open spec fn obeys_eq_spec() -> bool {
        true
    }

    open spec fn eq_spec(&self, other: &Self) -> bool {
        self.0@ == other.0@
    }
}

/// Internal router pool identifier.
pub type PoolId = u32;

#[derive(Debug, Clone, Copy, PartialEq, Eq, Hash, Structural)]
pub enum DexProtocol {
    Raydium,
    Meteora,
    Whirlpool,
    OpenBookV2,
    Phoenix,
    Saber,
    OrcaV2,
}

#[derive(Debug, Clone, Copy, PartialEq, Eq, Hash, Structural)]
pub enum PoolType {
    AMM,
    Cpmm,
    Stable,
    Clmm,
    Dlmm,
    Orderbook,
}

#[derive(Debug, Clone, Copy, PartialEq, Eq, Structural)]
pub enum PoolStatus {
    Active,
    Disabled,
    Deprecated,
}

/// An initialized tick of a concentrated-liquidity pool.
#[derive(Debug, Clone, Copy, PartialEq, Eq, Structural)]
pub struct ClmmTick {
    pub index: i32,
    pub liquidity_net: i128,
}

/// A liquidity bin of a Meteora DLMM pool.
#[derive(Debug, Clone, Copy, PartialEq, Eq, Structural)]
pub struct DlmmBin {
    pub id: i32,
    pub amount_x: u128,
    pub amount_y: u128,
}


/// One side of a pool.
#[derive(Debug, Clone)]
pub struct PoolToken {
    pub mint: PubkeyBytes,
    pub name: String,
    pub symbol: String,
    pub decimals: u8,
    pub vault: Option<PubkeyBytes>,
}

/// Static description of a pool.
#[derive(Debug, Clone)]
pub struct PoolMetadata {
    /// Internal router id.
    pub id: PoolId,
    /// Pool account address.
    pub pubkey: PubkeyBytes,
    pub protocol: DexProtocol,
    pub pool_type: PoolType,
    pub status: PoolStatus,
    pub token_a: PoolToken,
    pub token_b: PoolToken,
}

/// Constant-product pool reserves (Raydium V4, Orca legacy).
#[derive(Debug, Clone, Copy, PartialEq, Eq, Structural)]
pub struct CpmmState {
    pub reserve_a: u128,
    pub reserve_b: u128,
}

/// StableSwap pool state (Saber, Meteora stable).
#[derive(Debug, Clone, Copy, PartialEq, Eq, Structural)]
pub struct StableSwapState {
    pub reserve_a: u128,
    pub reserve_b: u128,
    pub amp_factor: u64,
    pub token_a_multiplier: u64,
    pub token_b_multiplier: u64,
}

/// Concentrated-liquidity pool state (Whirlpool, Raydium CLMM); the
/// optional fields are known once the pool has been hydrated on chain.
#[derive(Debug, Clone)]
pub struct ClmmState {
    pub liquidity: Option<u128>,
    pub sqrt_price_x64: Option<u128>,
    pub current_tick_index: Option<i32>,
    pub tick_spacing: u16,
    pub reserve_a: Option<u128>,
    pub reserve_b: Option<u128>,
    pub initialized_ticks: Vec<ClmmTick>,
}

/// Meteora DLMM pool state. The active price is an IEEE-754 `f64` kept as
/// its bit pattern; only the floating-point price model reads it.
#[derive(Debug, Clone)]
pub struct DlmmState {
    pub active_bin_id: Option<i32>,
    pub bin_step: u16,
    pub active_price_bits: Option<u64>,
    pub reserve_a: Option<u128>,
    pub reserve_b: Option<u128>,
    pub bins: Vec<DlmmBin>,
}

/// Order-book market (Phoenix, OpenBook).
#[derive(Debug, Clone, Copy)]
pub struct OrderbookState {
    pub market_pubkey: PubkeyBytes,
    pub base_lot_size: u64,
    pub quote_lot_size: u64,
}

/// Pool-type specific state.
#[derive(Debug, Clone)]
pub enum PoolData {
    Cpmm(CpmmState),
    Stable(StableSwapState),
    Clmm(ClmmState),
    Dlmm(DlmmState),
    Orderbook(OrderbookState),
}

/// A pool as the router sees it. The TVL is an IEEE-754 `f64` in USD kept as
/// its bit pattern.
#[derive(Debug, Clone)]
pub struct Pool {
    pub metadata: PoolMetadata,
    pub data: PoolData,
    /// Protocol-native fee, in parts per million.
    pub fee_rate: u32,
    pub tvl_bits: Option<u64>,
    pub last_updated_slot: Option<u64>,
}

/// A quote that this library computes itself, or the inputs of a
/// floating-point pool model that the caller evaluates.
#[derive(Debug, Clone, Copy)]
pub enum SwapQuote {
    /// Computed in integer arithmetic.
    Exact(SwapResult),
    /// Needs the StableSwap invariant solver.
    StableSwap {
        amount_in: u128,
        reserve_in: u128,
        reserve_out: u128,
        multiplier_in: u64,
        multiplier_out: u64,
        amp_factor: u64,
        fee_rate_ppm: u32,
    },
    /// Needs the walk over initialized ticks; its output may not exceed
    /// `reserve_out` when that reserve is known.
    ClmmTicks {
        amount_in: u128,
        liquidity: u128,
        sqrt_price_x64: u128,
        current_tick_index: i32,
        a_to_b: bool,
        fee_rate_ppm: u32,
        reserve_out: Option<u128>,
    },
    /// Needs the DLMM price model: over the hydrated bins when `walk_bins`,
    /// else at the active price.
    Dlmm {
        amount_in: u128,
        a_to_b: bool,
        reserve_in: Option<u128>,
        reserve_out: Option<u128>,
        fee_rate_ppm: u32,
        walk_bins: bool,
    },
}

/// A quote capped by the output reserve when the reserve is known.
pub open spec fn capped(r: Result<SwapResult, SimulationError>, reserve_out: Option<u128>) -> Result<SwapResult, SimulationError> {
    match r {
        Ok(res) => match reserve_out {
            Some(cap) => if res.amount_out > cap { Err(SimulationError::InsufficientLiquidity) } else { Ok(res) },
            None => Ok(res),
        },
        Err(e) => Err(e),
    }
}

/// Rejects a concentrated-liquidity quote that pays out more than the known
/// output reserve.
pub fn cap_to_reserve(r: Result<SwapResult, SimulationError>, reserve_out: Option<u128>) -> (out: Result<SwapResult, SimulationError>)
    ensures
        out == capped(r, reserve_out),
{
    match r {
        Ok(res) => match reserve_out {
            Some(cap) => if res.amount_out > cap { Err(SimulationError::InsufficientLiquidity) } else { Ok(res) },
            None => Ok(res),
        },
        Err(e) => Err(e),
    }
}

impl Pool {
    /// Whether `mint` is token a of the pool.
    pub open spec fn is_token_a(&self, mint: PubkeyBytes) -> bool {
        self.metadata.token_a.mint.bytes() == mint.bytes()
    }

    /// Whether `mint` is one of the pool's two tokens.
    pub open spec fn has_token(&self, mint: PubkeyBytes) -> bool {
        self.is_token_a(mint) || self.metadata.token_b.mint.bytes() == mint.bytes()
    }

    /// What `simulate_swap` returns.
    pub open spec fn swap_spec(&self, input_mint: PubkeyBytes, amount_in: u128) -> Result<SwapQuote, SimulationError> {
        let a_in = self.is_token_a(input_mint);
        if !self.has_token(input_mint) {
            Err(SimulationError::MismatchedMint)
        } else if amount_in == 0 {
            Err(SimulationError::ZeroInput)
        } else {
            match self.data {
                PoolData::Cpmm(st) => {
                    let (ri, ro) = if a_in { (st.reserve_a, st.reserve_b) } else { (st.reserve_b, st.reserve_a) };
                    match cpmm_quote(amount_in, ri, ro, self.fee_rate, false) {
                        Ok(res) => Ok(SwapQuote::Exact(res)),
                        Err(e) => Err(e),
                    }
                },
                PoolData::Stable(st) => Ok(SwapQuote::StableSwap {
                    amount_in,
                    reserve_in: if a_in { st.reserve_a } else { st.reserve_b },
                    reserve_out: if a_in { st.reserve_b } else { st.reserve_a },
                    multiplier_in: if a_in { st.token_a_multiplier } else { st.token_b_multiplier },
                    multiplier_out: if a_in { st.token_b_multiplier } else { st.token_a_multiplier },
                    amp_factor: st.amp_factor,
                    fee_rate_ppm: self.fee_rate,
                }),
                PoolData::Clmm(st) => {
                    let reserve_out = if a_in { st.reserve_b } else { st.reserve_a };
                    if st.liquidity is None || st.sqrt_price_x64 is None {
                        Err(SimulationError::InsufficientLiquidity)
                    } else if st.initialized_ticks@.len() == 0 {
                        match capped(clmm_virtual_quote(amount_in, st.liquidity->0, st.sqrt_price_x64->0, a_in, self.fee_rate), reserve_out) {
                            Ok(res) => Ok(SwapQuote::Exact(res)),
                            Err(e) => Err(e),
                        }
                    } else if st.current_tick_index is None {
                        Err(SimulationError::InsufficientLiquidity)
                    } else {
                        Ok(SwapQuote::ClmmTicks {
                            amount_in,
                            liquidity: st.liquidity->0,
                            sqrt_price_x64: st.sqrt_price_x64->0,
                            current_tick_index: st.current_tick_index->0,
                            a_to_b: a_in,
                            fee_rate_ppm: self.fee_rate,
                            reserve_out,
                        })
                    }
                },
                PoolData::Dlmm(st) => {
                    if st.active_bin_id is None && st.active_price_bits is None {
                        Err(SimulationError::InsufficientLiquidity)
                    } else {
                        Ok(SwapQuote::Dlmm {
                            amount_in,
                            a_to_b: a_in,
                            reserve_in: if a_in { st.reserve_a } else { st.reserve_b },
                            reserve_out: if a_in { st.reserve_b } else { st.reserve_a },
                            fee_rate_ppm: self.fee_rate,
                            walk_bins: st.bins@.len() > 0,
                        })
                    }
                },
                PoolData::Orderbook(_) => Err(SimulationError::UnsupportedPoolType),
            }
        }
    }

    pub fn is_active(&self) -> (r: bool)
        ensures
            r == (self.metadata.status == PoolStatus::Active),
    {
        match self.metadata.status {
            PoolStatus::Active => true,
            _ => false,
        }
    }

    /// Whether the pool state is older than `max_slot_lag` slots, or of unknown age.
    pub fn is_stale(&self, current_slot: u64, max_slot_lag: u64) -> (r: bool)
        ensures
            r == match self.last_updated_slot {
                Some(last) => (if current_slot >= last { current_slot - last } else { 0 }) > max_slot_lag,
                None => true,
            },
    {
        match self.last_updated_slot {
            Some(last_updated_slot) => current_slot.saturating_sub(last_updated_slot) > max_slot_lag,
            None => true,
        }
    }

    /// The token received for `input_mint`, or `None` when it is not in the pool.
    pub fn get_output_token(&self, input_mint: &PubkeyBytes) -> (r: Option<PubkeyBytes>)
        ensures
            match r {
                Some(out) => if self.is_token_a(*input_mint) {
                    out == self.metadata.token_b.mint
                } else {
                    self.metadata.token_b.mint.bytes() == input_mint.bytes() && out == self.metadata.token_a.mint
                },
                None => !self.has_token(*input_mint),
            },
    {
        if self.metadata.token_a.mint == *input_mint {
            Some(self.metadata.token_b.mint)
        } else if self.metadata.token_b.mint == *input_mint {
            Some(self.metadata.token_a.mint)
        } else {
            None
        }
    }

    pub fn is_input_token_a(&self, input_mint: &PubkeyBytes) -> (r: bool)
        ensures
            r == self.is_token_a(*input_mint),
    {
        self.metadata.token_a.mint == *input_mint
    }

    /// The two mints, smaller (byte-wise) first.
    pub fn canonical_mint_order(&self) -> (r: (PubkeyBytes, PubkeyBytes))
        ensures
            if bytes_lt(self.metadata.token_a.mint.bytes(), self.metadata.token_b.mint.bytes(), 0) {
                r == (self.metadata.token_a.mint, self.metadata.token_b.mint)
            } else {
                r == (self.metadata.token_b.mint, self.metadata.token_a.mint)
            },
    {
        if self.metadata.token_a.mint.is_less_than(&self.metadata.token_b.mint) {
            (self.metadata.token_a.mint, self.metadata.token_b.mint)
        } else {
            (self.metadata.token_b.mint, self.metadata.token_a.mint)
        }
    }

    pub fn pool_id(&self) -> (r: PoolId)
        ensures
            r == self.metadata.id,
    {
        self.metadata.id
    }

    /// Quotes an exact-input swap of `amount_in` of `input_mint`: exactly for
    /// constant-product pools and for concentrated-liquidity pools without
    /// hydrated ticks (virtual reserves, capped by the known output reserve);
    /// otherwise the inputs of the pool's floating-point model.
    pub fn simulate_swap(&self, input_mint: &PubkeyBytes, amount_in: u128) -> (r: Result<SwapQuote, SimulationError>)
        ensures
            r == self.swap_spec(*input_mint, amount_in),
    {
        if !(self.metadata.token_a.mint == *input_mint) && !(self.metadata.token_b.mint == *input_mint) {
            return Err(SimulationError::MismatchedMint);
        }
        if amount_in == 0 {
            return Err(SimulationError::ZeroInput);
        }
        let is_a_in = self.is_input_token_a(input_mint);
        match &self.data {
            PoolData::Cpmm(state) => {
                let (reserve_in, reserve_out) = if is_a_in {
                    (state.reserve_a, state.reserve_b)
                } else {
                    (state.reserve_b, state.reserve_a)
                };
                match simulate_cpmm(amount_in, reserve_in, reserve_out, self.fee_rate, false) {
                    Ok(res) => Ok(SwapQuote::Exact(res)),
                    Err(e) => Err(e),
                }
            },
            PoolData::Stable(state) => Ok(SwapQuote::StableSwap {
                amount_in,
                reserve_in: if is_a_in { state.reserve_a } else { state.reserve_b },
                reserve_out: if is_a_in { state.reserve_b } else { state.reserve_a },
                multiplier_in: if is_a_in { state.token_a_multiplier } else { state.token_b_multiplier },
                multiplier_out: if is_a_in { state.token_b_multiplier } else { state.token_a_multiplier },
                amp_factor: state.amp_factor,
                fee_rate_ppm: self.fee_rate,
            }),
            PoolData::Clmm(state) => {
                let liquidity = match state.liquidity {
                    Some(l) => l,
                    None => return Err(SimulationError::InsufficientLiquidity),
                };
                let sqrt_price_x64 = match state.sqrt_price_x64 {
                    Some(p) => p,
                    None => return Err(SimulationError::InsufficientLiquidity),
                };
                let reserve_out = if is_a_in { state.reserve_b } else { state.reserve_a };
                if state.initialized_ticks.len() == 0 {
                    let quoted = simulate_clmm_virtual_reserves(amount_in, liquidity, sqrt_price_x64, is_a_in, self.fee_rate);
                    match cap_to_reserve(quoted, reserve_out) {
                        Ok(res) => Ok(SwapQuote::Exact(res)),
                        Err(e) => Err(e),
                    }
                } else {
                    let current_tick_index = match state.current_tick_index {
                        Some(t) => t,
                        None => return Err(SimulationError::InsufficientLiquidity),
                    };
                    Ok(SwapQuote::ClmmTicks {
                        amount_in,
                        liquidity,
                        sqrt_price_x64,
                        current_tick_index,
                        a_to_b: is_a_in,
                        fee_rate_ppm: self.fee_rate,
                        reserve_out,
                    })
                }
            },
            PoolData::Dlmm(state) => {
                if state.active_bin_id.is_none() && state.active_price_bits.is_none() {
                    return Err(SimulationError::InsufficientLiquidity);
                }
                Ok(SwapQuote::Dlmm {
                    amount_in,
                    a_to_b: is_a_in,
                    reserve_in: if is_a_in { state.reserve_a } else { state.reserve_b },
                    reserve_out: if is_a_in { state.reserve_b } else { state.reserve_a },
                    fee_rate_ppm: self.fee_rate,
                    walk_bins: state.bins.len() > 0,
                })
            },
            PoolData::Orderbook(_) => Err(SimulationError::UnsupportedPoolType),
        }
    }
}

/// One page of pools.
#[derive(Debug)]
pub struct PoolPage {
    pub total: usize,
    pub page: usize,
    pub page_size: usize,
    pub data: Vec<Pool>,
}

/// Page size of a pool listing that does not give one.
pub const DEFAULT_POOL_PAGE_SIZE: usize = 100;
/// Largest page size of a pool listing.
pub const MAX_POOL_PAGE_SIZE: usize = 1_000;


impl PoolToken {
    /// A copy of this token.
    pub fn duplicate(&self) -> (r: Self)
        ensures
            r == *self,
    {
        PoolToken {
            mint: self.mint,
            name: self.name.clone(),
            symbol: self.symbol.clone(),
            decimals: self.decimals,
            vault: self.vault,
        }
    }
}

/// A copy of a slice of `Copy` values.
fn copy_items<T: Copy>(items: &Vec<T>) -> (r: Vec<T>)
    ensures
        r@ == items@,
{
    let mut out: Vec<T> = Vec::new();
    let mut i: usize = 0;
    while i < items.len()
        invariant
            i <= items@.len(),
            out@ == items@.subrange(0, i as int),
        decreases items@.len() - i,
    {
        out.push(items[i]);
        proof {
            assert(items@.subrange(0, i + 1) =~= items@.subrange(0, i as int).push(items@[i as int]));
        }
        i = i + 1;
    }
    proof {
        assert(items@.subrange(0, items@.len() as int) =~= items@);
    }
    out
}

/// Whether two pool states hold the same values (their lists compared as sequences).
pub open spec fn same_data(a: PoolData, b: PoolData) -> bool {
    match (a, b) {
        (PoolData::Cpmm(x), PoolData::Cpmm(y)) => x == y,
        (PoolData::Stable(x), PoolData::Stable(y)) => x == y,
        (PoolData::Clmm(x), PoolData::Clmm(y)) => x.liquidity == y.liquidity && x.sqrt_price_x64 == y.sqrt_price_x64
            && x.current_tick_index == y.current_tick_index && x.tick_spacing == y.tick_spacing
            && x.reserve_a == y.reserve_a && x.reserve_b == y.reserve_b
            && x.initialized_ticks@ == y.initialized_ticks@,
        (PoolData::Dlmm(x), PoolData::Dlmm(y)) => x.active_bin_id == y.active_bin_id && x.bin_step == y.bin_step
            && x.active_price_bits == y.active_price_bits && x.reserve_a == y.reserve_a
            && x.reserve_b == y.reserve_b && x.bins@ == y.bins@,
        (PoolData::Orderbook(x), PoolData::Orderbook(y)) => x == y,
        _ => false,
    }
}

/// Whether two pools hold the same values.
pub open spec fn same_pool(a: Pool, b: Pool) -> bool {
    &&& a.metadata == b.metadata
    &&& same_data(a.data, b.data)
    &&& a.fee_rate == b.fee_rate
    &&& a.tvl_bits == b.tvl_bits
    &&& a.last_updated_slot == b.last_updated_slot
}

impl Pool {
    /// A copy of this pool.
    pub fn duplicate(&self) -> (r: Self)
        ensures
            same_pool(r, *self),
    {
        let metadata = PoolMetadata {
            id: self.metadata.id,
            pubkey: self.metadata.pubkey,
            protocol: self.metadata.protocol,
            pool_type: self.metadata.pool_type,
            status: self.metadata.status,
            token_a: self.metadata.token_a.duplicate(),
            token_b: self.metadata.token_b.duplicate(),
        };
        let data = match &self.data {
            PoolData::Cpmm(st) => PoolData::Cpmm(*st),
            PoolData::Stable(st) => PoolData::Stable(*st),
            PoolData::Clmm(st) => PoolData::Clmm(ClmmState {
                liquidity: st.liquidity,
                sqrt_price_x64: st.sqrt_price_x64,
                current_tick_index: st.current_tick_index,
                tick_spacing: st.tick_spacing,
                reserve_a: st.reserve_a,
                reserve_b: st.reserve_b,
                initialized_ticks: copy_items(&st.initialized_ticks),
            }),
            PoolData::Dlmm(st) => PoolData::Dlmm(DlmmState {
                active_bin_id: st.active_bin_id,
                bin_step: st.bin_step,
                active_price_bits: st.active_price_bits,
                reserve_a: st.reserve_a,
                reserve_b: st.reserve_b,
                bins: copy_items(&st.bins),
            }),
            PoolData::Orderbook(st) => PoolData::Orderbook(*st),
        };
        Pool {
            metadata,
            data,
            fee_rate: self.fee_rate,
            tvl_bits: self.tvl_bits,
            last_updated_slot: self.last_updated_slot,
        }
    }
}

/// Where page `page` (1-based) of size `page_size` starts, saturating.
pub open spec fn page_start(page: usize, page_size: usize) -> int {
    let p = if page < 1 { 1 } else { page as int };
    let size = if page_size < 1 { 1 } else if page_size > MAX_POOL_PAGE_SIZE { MAX_POOL_PAGE_SIZE as int } else { page_size as int };
    let start = (p - 1) * size;
    if start > usize::MAX { usize::MAX as int } else { start }
}

/// Page `page` (1-based, at least 1) of `pools`, with the page size clamped
/// to `1..=MAX_POOL_PAGE_SIZE`.
pub fn paginate_pools(pools: &[Pool], page: usize, page_size: usize) -> (r: PoolPage)
    ensures
        r.total == pools@.len(),
        r.page == if page < 1 { 1 } else { page },
        r.page_size == if page_size < 1 { 1 } else if page_size > MAX_POOL_PAGE_SIZE { MAX_POOL_PAGE_SIZE } else { page_size },
        ({
            let start = page_start(page, page_size);
            let lo = if start < pools@.len() { start } else { pools@.len() as int };
            let hi = if start + r.page_size < pools@.len() { start + r.page_size } else { pools@.len() as int };
            &&& r.data@.len() == hi - lo
            &&& forall|i: int| 0 <= i < r.data@.len() ==> same_pool(#[trigger] r.data@[i], pools@[lo + i])
        }),
{
    let page = if page < 1 { 1 } else { page };
    let page_size = if page_size < 1 {
        1
    } else if page_size > MAX_POOL_PAGE_SIZE {
        MAX_POOL_PAGE_SIZE
    } else {
        page_size
    };
    let start = match (page - 1).checked_mul(page_size) {
        Some(v) => v,
        None => usize::MAX,
    };
    let lo = if start < pools.len() { start } else { pools.len() };
    let hi = if pools.len() - lo > page_size { lo + page_size } else { pools.len() };
    let mut data: Vec<Pool> = Vec::new();
    let mut i: usize = lo;
    while i < hi
        invariant
            lo <= i <= hi <= pools@.len(),
            data@.len() == i - lo,
            forall|j: int| 0 <= j < data@.len() ==> #[trigger] same_pool(data@[j], pools@[lo + j]),
        decreases hi - i,
    {
        data.push(pools[i].duplicate());
        i = i + 1;
    }
    PoolPage { total: pools.len(), page, page_size, data }
}

/// Swapping through a constant-product pool trades against the reserves of
/// the two tokens in the direction of the swap: selling token a quotes the
/// constant-product formula with reserve a on the input side and reserve b
/// on the output side, selling token b the reverse. The pool never pays out
/// its whole reserve of the token bought, nor more than the spot price allows.
pub proof fn lemma_cpmm_pool_swap_direction(pool: Pool, amount_in: u128)
    requires
        pool.data is Cpmm,
        amount_in > 0,
    ensures
        ({
            let st = pool.data->Cpmm_0;
            let qa = pool.swap_spec(pool.metadata.token_a.mint, amount_in);
            let qb = pool.swap_spec(pool.metadata.token_b.mint, amount_in);
            &&& qa == match cpmm_quote(amount_in, st.reserve_a, st.reserve_b, pool.fee_rate, false) {
                Ok(r) => Ok(SwapQuote::Exact(r)),
                Err(e) => Err(e),
            }
            &&& qa matches Ok(SwapQuote::Exact(r)) ==> r.amount_out < st.reserve_b
                && r.amount_out * st.reserve_a <= (amount_in - r.fee_amount) * st.reserve_b
            &&& pool.metadata.token_a.mint.bytes() != pool.metadata.token_b.mint.bytes() ==> {
                &&& qb == match cpmm_quote(amount_in, st.reserve_b, st.reserve_a, pool.fee_rate, false) {
                    Ok(r) => Ok(SwapQuote::Exact(r)),
                    Err(e) => Err(e),
                }
                &&& qb matches Ok(SwapQuote::Exact(r)) ==> r.amount_out < st.reserve_a
                    && r.amount_out * st.reserve_b <= (amount_in - r.fee_amount) * st.reserve_a
            }
        }),
{
    let st = pool.data->Cpmm_0;
    if cpmm_quote(amount_in, st.reserve_a, st.reserve_b, pool.fee_rate, false) is Ok {
        crate::swap_math::lemma_cpmm_quote_keeps_invariant(amount_in, st.reserve_a, st.reserve_b, pool.fee_rate, false);
        crate::swap_math::lemma_cpmm_quote_below_spot(amount_in, st.reserve_a, st.reserve_b, pool.fee_rate, false);
    }
    if cpmm_quote(amount_in, st.reserve_b, st.reserve_a, pool.fee_rate, false) is Ok {
        crate::swap_math::lemma_cpmm_quote_keeps_invariant(amount_in, st.reserve_b, st.reserve_a, pool.fee_rate, false);
        crate::swap_math::lemma_cpmm_quote_below_spot(amount_in, st.reserve_b, st.reserve_a, pool.fee_rate, false);
    }
}

/// Swapping through a concentrated-liquidity pool without hydrated ticks
/// quotes its virtual reserves in the direction of the swap: selling token a
/// is the a-to-b quote, capped by the known reserve of token b, and selling
/// token b the b-to-a quote, capped by the known reserve of token a.
pub proof fn lemma_clmm_pool_swap_direction(pool: Pool, amount_in: u128)
    requires
        pool.data is Clmm,
        pool.data->Clmm_0.liquidity is Some,
        pool.data->Clmm_0.sqrt_price_x64 is Some,
        pool.data->Clmm_0.initialized_ticks@.len() == 0,
        amount_in > 0,
    ensures
        ({
            let st = pool.data->Clmm_0;
            let l = st.liquidity->0;
            let p = st.sqrt_price_x64->0;
            &&& pool.swap_spec(pool.metadata.token_a.mint, amount_in)
                == match capped(clmm_virtual_quote(amount_in, l, p, true, pool.fee_rate), st.reserve_b) {
                    Ok(r) => Ok(SwapQuote::Exact(r)),
                    Err(e) => Err(e),
                }
            &&& pool.metadata.token_a.mint.bytes() != pool.metadata.token_b.mint.bytes() ==>
                pool.swap_spec(pool.metadata.token_b.mint, amount_in)
                == match capped(clmm_virtual_quote(amount_in, l, p, false, pool.fee_rate), st.reserve_a) {
                    Ok(r) => Ok(SwapQuote::Exact(r)),
                    Err(e) => Err(e),
                }
        }),
{
}

/// Whatever model a pool needs, its quote for selling token a takes token
/// a's side as the input and token b's as the output (and selling token b
/// the reverse): the a-to-b flag is set exactly when token a is sold, and
/// the reserves and multipliers handed to the model are the sold token's on
/// the input side.
pub proof fn lemma_pool_quote_sides(pool: Pool, amount_in: u128)
    requires
        amount_in > 0,
    ensures
        ({
            let qa = pool.swap_spec(pool.metadata.token_a.mint, amount_in);
            let qb = pool.swap_spec(pool.metadata.token_b.mint, amount_in);
            let distinct = pool.metadata.token_a.mint.bytes() != pool.metadata.token_b.mint.bytes();
            &&& pool.data is Stable ==> {
                let st = pool.data->Stable_0;
                &&& qa == Ok::<SwapQuote, SimulationError>(SwapQuote::StableSwap {
                    amount_in, reserve_in: st.reserve_a, reserve_out: st.reserve_b,
                    multiplier_in: st.token_a_multiplier, multiplier_out: st.token_b_multiplier,
                    amp_factor: st.amp_factor, fee_rate_ppm: pool.fee_rate })
                &&& distinct ==> qb == Ok::<SwapQuote, SimulationError>(SwapQuote::StableSwap {
                    amount_in, reserve_in: st.reserve_b, reserve_out: st.reserve_a,
                    multiplier_in: st.token_b_multiplier, multiplier_out: st.token_a_multiplier,
                    amp_factor: st.amp_factor, fee_rate_ppm: pool.fee_rate })
            }
            &&& (pool.data is Dlmm && (pool.data->Dlmm_0.active_bin_id is Some
                || pool.data->Dlmm_0.active_price_bits is Some)) ==> {
                let st = pool.data->Dlmm_0;
                &&& qa == Ok::<SwapQuote, SimulationError>(SwapQuote::Dlmm {
                    amount_in, a_to_b: true, reserve_in: st.reserve_a, reserve_out: st.reserve_b,
                    fee_rate_ppm: pool.fee_rate, walk_bins: st.bins@.len() > 0 })
                &&& distinct ==> qb == Ok::<SwapQuote, SimulationError>(SwapQuote::Dlmm {
                    amount_in, a_to_b: false, reserve_in: st.reserve_b, reserve_out: st.reserve_a,
                    fee_rate_ppm: pool.fee_rate, walk_bins: st.bins@.len() > 0 })
            }
            &&& (pool.data is Clmm && pool.data->Clmm_0.liquidity is Some && pool.data->Clmm_0.sqrt_price_x64 is Some
                && pool.data->Clmm_0.initialized_ticks@.len() > 0 && pool.data->Clmm_0.current_tick_index is Some) ==> {
                let st = pool.data->Clmm_0;
                &&& qa == Ok::<SwapQuote, SimulationError>(SwapQuote::ClmmTicks {
                    amount_in, liquidity: st.liquidity->0, sqrt_price_x64: st.sqrt_price_x64->0,
                    current_tick_index: st.current_tick_index->0, a_to_b: true, fee_rate_ppm: pool.fee_rate,
                    reserve_out: st.reserve_b })
                &&& distinct ==> qb == Ok::<SwapQuote, SimulationError>(SwapQuote::ClmmTicks {
                    amount_in, liquidity: st.liquidity->0, sqrt_price_x64: st.sqrt_price_x64->0,
                    current_tick_index: st.current_tick_index->0, a_to_b: false, fee_rate_ppm: pool.fee_rate,
                    reserve_out: st.reserve_a })
            }
        }),
{
}

} // verus!
