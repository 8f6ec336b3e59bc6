use vstd::prelude::*;
use vstd::arithmetic::div_mod::*;
use vstd::arithmetic::mul::*;
use crate::error::SimulationError;
use crate::wide::{two64, two128, u256_value, mul_u128_u128, div_u256_by_u128};

verus! {

/// Fee rates are expressed in parts per million.
pub const FEE_DENOMINATOR: u128 = 1_000_000;

/// Outcome of an exact-input swap through one pool.
#[derive(Debug, Clone, Copy, PartialEq, Eq, Structural)]
pub struct SwapResult {
    pub amount_out: u128,
    pub fee_amount: u128,
    /// True when the quote comes from an approximation of the pool's curve.
    pub is_approximate: bool,
}

/// The fee charged on `amount` at `fee_rate_ppm`, rounded down.
pub open spec fn fee_of(amount: int, fee_rate_ppm: int) -> int {
    amount * fee_rate_ppm / FEE_DENOMINATOR as int
}

/// What `fee_amount` returns.
pub open spec fn fee_amount_spec(amount: u128, fee_rate_ppm: u32) -> Result<u128, SimulationError> {
    if fee_rate_ppm >= FEE_DENOMINATOR {
        Err(SimulationError::FeeExceedsInput)
    } else if amount * fee_rate_ppm > u128::MAX {
        Err(SimulationError::Overflow)
    } else {
        Ok(fee_of(amount as int, fee_rate_ppm as int) as u128)
    }
}

/// What `amount_after_fee` returns: the amount left to trade and the fee taken.
pub open spec fn after_fee_spec(amount: u128, fee_rate_ppm: u32) -> Result<(u128, u128), SimulationError> {
    if amount == 0 {
        Err(SimulationError::ZeroInput)
    } else {
        match fee_amount_spec(amount, fee_rate_ppm) {
            Err(e) => Err(e),
            Ok(fee) => if fee >= amount {
                Err(SimulationError::FeeExceedsInput)
            } else {
                Ok(((amount - fee) as u128, fee))
            },
        }
    }
}

/// What `simulate_cpmm` returns: the constant-product quote
/// `out = reserve_out * net / (reserve_in + net)`, where `net` is the input after fees.
pub open spec fn cpmm_quote(
    amount_in: u128,
    reserve_in: u128,
    reserve_out: u128,
    fee_rate_ppm: u32,
    is_approximate: bool,
) -> Result<SwapResult, SimulationError> {
    if reserve_in == 0 || reserve_out == 0 {
        Err(SimulationError::InsufficientLiquidity)
    } else {
        match after_fee_spec(amount_in, fee_rate_ppm) {
            Err(e) => Err(e),
            Ok((net, fee)) => if net == 0 {
                Err(SimulationError::FeeExceedsInput)
            } else if reserve_out * net > u128::MAX || reserve_in + net > u128::MAX {
                Err(SimulationError::Overflow)
            } else if reserve_out * net / (reserve_in + net) == 0 {
                Err(SimulationError::InsufficientLiquidity)
            } else {
                Ok(
                    SwapResult {
                        amount_out: (reserve_out * net / (reserve_in + net)) as u128,
                        fee_amount: fee,
                        is_approximate,
                    },
                )
            },
        }
    }
}

/// Fee charged on `amount` at `fee_rate_ppm` parts per million, rounded down.
pub fn fee_amount(amount: u128, fee_rate_ppm: u32) -> (r: Result<u128, SimulationError>)
    ensures
        r == fee_amount_spec(amount, fee_rate_ppm),
{
    if fee_rate_ppm as u128 >= FEE_DENOMINATOR {
        return Err(SimulationError::FeeExceedsInput);
    }
    match amount.checked_mul(fee_rate_ppm as u128) {
        None => Err(SimulationError::Overflow),
        Some(v) => Ok(v / FEE_DENOMINATOR),
    }
}

/// Splits `amount` into the part that is traded and the fee.
pub fn amount_after_fee(amount: u128, fee_rate_ppm: u32) -> (r: Result<(u128, u128), SimulationError>)
    ensures
        r == after_fee_spec(amount, fee_rate_ppm),
        r matches Ok((net, fee)) ==> net + fee == amount && net > 0,
{
    if amount == 0 {
        return Err(SimulationError::ZeroInput);
    }
    let fee = match fee_amount(amount, fee_rate_ppm) {
        Ok(fee) => fee,
        Err(e) => return Err(e),
    };
    if fee >= amount {
        return Err(SimulationError::FeeExceedsInput);
    }
    Ok((amount - fee, fee))
}

/// Exact-input quote for a constant-product pool, in integer arithmetic.
pub fn simulate_cpmm(
    amount_in: u128,
    reserve_in: u128,
    reserve_out: u128,
    fee_rate_ppm: u32,
    is_approximate: bool,
) -> (r: Result<SwapResult, SimulationError>)
    ensures
        r == cpmm_quote(amount_in, reserve_in, reserve_out, fee_rate_ppm, is_approximate),
{
    if reserve_in == 0 || reserve_out == 0 {
        return Err(SimulationError::InsufficientLiquidity);
    }
    let (net, fee) = match amount_after_fee(amount_in, fee_rate_ppm) {
        Ok(pair) => pair,
        Err(e) => return Err(e),
    };
    if net == 0 {
        return Err(SimulationError::FeeExceedsInput);
    }
    let numerator = match reserve_out.checked_mul(net) {
        Some(v) => v,
        None => return Err(SimulationError::Overflow),
    };
    let denominator = match reserve_in.checked_add(net) {
        Some(v) => v,
        None => return Err(SimulationError::Overflow),
    };
    let amount_out = numerator / denominator;
    if amount_out == 0 {
        return Err(SimulationError::InsufficientLiquidity);
    }
    Ok(SwapResult { amount_out, fee_amount: fee, is_approximate })
}


/// What `clmm_virtual_reserves` returns: the virtual reserves
/// `(L * 2^64 / sqrt_price, L * sqrt_price / 2^64)` of a concentrated-liquidity
/// pool with liquidity `L` and Q64.64 square-root price `sqrt_price`.
pub open spec fn clmm_virtual_reserves_spec(liquidity: u128, sqrt_price_x64: u128) -> Result<
    (u128, u128),
    SimulationError,
> {
    if liquidity == 0 || sqrt_price_x64 == 0 {
        Err(SimulationError::InsufficientLiquidity)
    } else {
        let a = liquidity * two64() / sqrt_price_x64 as int;
        let b = liquidity * sqrt_price_x64 / two64();
        if a >= two128() || b >= two128() {
            Err(SimulationError::Overflow)
        } else if a == 0 || b == 0 {
            Err(SimulationError::InsufficientLiquidity)
        } else {
            Ok((a as u128, b as u128))
        }
    }
}

/// What `simulate_clmm_virtual_reserves` returns.
pub open spec fn clmm_virtual_quote(
    amount_in: u128,
    liquidity: u128,
    sqrt_price_x64: u128,
    a_to_b: bool,
    fee_rate_ppm: u32,
) -> Result<SwapResult, SimulationError> {
    match clmm_virtual_reserves_spec(liquidity, sqrt_price_x64) {
        Err(e) => Err(e),
        Ok((va, vb)) => if a_to_b {
            cpmm_quote(amount_in, va, vb, fee_rate_ppm, true)
        } else {
            cpmm_quote(amount_in, vb, va, fee_rate_ppm, true)
        },
    }
}

proof fn lemma_shift_halves(x: u128)
    ensures
        u256_value(x >> 64u128, x << 64u128) == x * two64(),
        x >> 64u128 < two64(),
{
    assert(x >> 64u128 == x / 0x1_0000_0000_0000_0000u128) by (bit_vector);
    assert((x << 64u128) == (x % 0x1_0000_0000_0000_0000u128) * 0x1_0000_0000_0000_0000u128)
        by (bit_vector);
    lemma_fundamental_div_mod(x as int, two64());
    assert(u256_value(x >> 64u128, x << 64u128) == x * two64()) by (nonlinear_arith)
        requires
            x == two64() * (x as int / two64()) + x as int % two64(),
            x >> 64u128 == x as int / two64(),
            (x << 64u128) == (x as int % two64()) * two64(),
            u256_value(x >> 64u128, x << 64u128) == (x >> 64u128) * two128() + (x << 64u128),
            two128() == two64() * two64(),
    ;
}

proof fn lemma_high_word_quotient(hi: u128, lo: u128)
    ensures
        u256_value(hi, lo) / two64() == hi * two64() + lo as int / two64(),
        lo >> 64u128 == lo as int / two64(),
        lo >> 64u128 < two64(),
{
    assert(lo >> 64u128 == lo / 0x1_0000_0000_0000_0000u128) by (bit_vector);
    lemma_fundamental_div_mod(lo as int, two64());
    lemma_mod_bound(lo as int, two64());
    let q = hi * two64() + lo as int / two64();
    assert(u256_value(hi, lo) == q * two64() + lo as int % two64()) by (nonlinear_arith)
        requires
            lo == two64() * (lo as int / two64()) + lo as int % two64(),
            q == hi * two64() + lo as int / two64(),
            u256_value(hi, lo) == hi * two128() + lo,
            two128() == two64() * two64(),
    ;
    lemma_fundamental_div_mod_converse(u256_value(hi, lo), two64(), q, lo as int % two64());
    lemma_div_is_ordered(lo as int, two128() - 1, two64());
    lemma_fundamental_div_mod_converse(two128() - 1, two64(), two64() - 1, two64() - 1);
}

/// Virtual constant-product reserves of a concentrated-liquidity pool at its
/// current price, computed with exact 256-bit intermediates.
pub fn clmm_virtual_reserves(liquidity: u128, sqrt_price_x64: u128) -> (r: Result<
    (u128, u128),
    SimulationError,
>)
    ensures
        r == clmm_virtual_reserves_spec(liquidity, sqrt_price_x64),
{
    if liquidity == 0 || sqrt_price_x64 == 0 {
        return Err(SimulationError::InsufficientLiquidity);
    }
    proof {
        lemma_shift_halves(liquidity);
    }
    let virtual_a = match div_u256_by_u128(liquidity >> 64, liquidity << 64, sqrt_price_x64) {
        Some(v) => v,
        None => return Err(SimulationError::Overflow),
    };
    let (hi, lo) = mul_u128_u128(liquidity, sqrt_price_x64);
    proof {
        lemma_high_word_quotient(hi, lo);
    }
    let virtual_b = if hi > 0 {
        if hi >> 64 != 0 {
            proof {
                assert(hi >> 64u128 != 0 ==> hi >= 0x1_0000_0000_0000_0000u128) by (bit_vector);
                assert(hi * two64() >= two128()) by (nonlinear_arith)
                    requires
                        hi >= two64(),
                        two128() == two64() * two64(),
                ;
            }
            return Err(SimulationError::Overflow);
        }
        proof {
            assert(hi >> 64u128 == 0 ==> hi < 0x1_0000_0000_0000_0000u128) by (bit_vector);
            lemma_join_words(lo >> 64u128, hi);
        }
        (lo >> 64) | (hi << 64)
    } else {
        lo >> 64
    };
    if virtual_a == 0 || virtual_b == 0 {
        return Err(SimulationError::InsufficientLiquidity);
    }
    Ok((virtual_a, virtual_b))
}

proof fn lemma_join_words(low: u128, hi: u128)
    requires
        low < two64(),
        hi < two64(),
    ensures
        low | (hi << 64u128) == hi * two64() + low,
{
    assert(low < 0x1_0000_0000_0000_0000u128 && hi < 0x1_0000_0000_0000_0000u128 ==> low | (hi
        << 64u128) == hi * 0x1_0000_0000_0000_0000u128 + low) by (bit_vector);
}

/// Quotes a concentrated-liquidity swap as a constant-product swap against the
/// pool's virtual reserves at the current price (an approximation).
pub fn simulate_clmm_virtual_reserves(
    amount_in: u128,
    liquidity: u128,
    sqrt_price_x64: u128,
    a_to_b: bool,
    fee_rate_ppm: u32,
) -> (r: Result<SwapResult, SimulationError>)
    ensures
        r == clmm_virtual_quote(amount_in, liquidity, sqrt_price_x64, a_to_b, fee_rate_ppm),
{
    let (virtual_a, virtual_b) = match clmm_virtual_reserves(liquidity, sqrt_price_x64) {
        Ok(pair) => pair,
        Err(e) => return Err(e),
    };
    let (reserve_in, reserve_out) = if a_to_b {
        (virtual_a, virtual_b)
    } else {
        (virtual_b, virtual_a)
    };
    simulate_cpmm(amount_in, reserve_in, reserve_out, fee_rate_ppm, true)
}

/// A constant-product quote never pays out the whole output reserve, charges
/// a fee below the input, and never decreases the pool's product `x * y`
/// (fees and rounding stay in the pool).
pub proof fn lemma_cpmm_quote_keeps_invariant(
    amount_in: u128,
    reserve_in: u128,
    reserve_out: u128,
    fee_rate_ppm: u32,
    is_approximate: bool,
)
    requires
        cpmm_quote(amount_in, reserve_in, reserve_out, fee_rate_ppm, is_approximate) is Ok,
    ensures
        ({
            let r = cpmm_quote(amount_in, reserve_in, reserve_out, fee_rate_ppm, is_approximate)->Ok_0;
            &&& 0 < r.amount_out < reserve_out
            &&& r.fee_amount < amount_in
            &&& (reserve_in + (amount_in - r.fee_amount)) * (reserve_out - r.amount_out)
                >= reserve_in * reserve_out
        }),
{
    let (net, fee) = after_fee_spec(amount_in, fee_rate_ppm)->Ok_0;
    let ri = reserve_in as int;
    let ro = reserve_out as int;
    let n = net as int;
    let out = ro * n / (ri + n);
    lemma_fundamental_div_mod(ro * n, ri + n);
    lemma_mod_bound(ro * n, ri + n);
    assert(out < ro) by (nonlinear_arith)
        requires
            ri > 0,
            n > 0,
            ro > 0,
            ro * n == (ri + n) * out + (ro * n) % (ri + n),
            0 <= (ro * n) % (ri + n),
    ;
    assert((ri + n) * (ro - out) >= ri * ro) by (nonlinear_arith)
        requires
            ri > 0,
            n > 0,
            ro * n == (ri + n) * out + (ro * n) % (ri + n),
            0 <= (ro * n) % (ri + n),
    ;
}

proof fn lemma_net_monotone(a1: u128, a2: u128, fee_rate_ppm: u32)
    requires
        a1 <= a2,
        after_fee_spec(a1, fee_rate_ppm) is Ok,
        after_fee_spec(a2, fee_rate_ppm) is Ok,
    ensures
        after_fee_spec(a1, fee_rate_ppm)->Ok_0.0 <= after_fee_spec(a2, fee_rate_ppm)->Ok_0.0,
{
    let p = fee_rate_ppm as int;
    let d = FEE_DENOMINATOR as int;
    let f1 = fee_of(a1 as int, p);
    let f2 = fee_of(a2 as int, p);
    lemma_fundamental_div_mod(a1 * p, d);
    lemma_fundamental_div_mod(a2 * p, d);
    lemma_mod_bound(a1 * p, d);
    lemma_mod_bound(a2 * p, d);
    assert(f2 - f1 <= a2 - a1) by (nonlinear_arith)
        requires
            0 <= p < d,
            d == 1_000_000,
            a1 <= a2,
            a1 * p == d * f1 + (a1 * p) % d,
            a2 * p == d * f2 + (a2 * p) % d,
            0 <= (a1 * p) % d < d,
            0 <= (a2 * p) % d < d,
    ;
}

proof fn lemma_floor_ratio_monotone(ro: int, ri: int, n1: int, n2: int)
    requires
        ro >= 0,
        ri > 0,
        0 < n1 <= n2,
    ensures
        ro * n1 / (ri + n1) <= ro * n2 / (ri + n2),
{
    let q1 = ro * n1 / (ri + n1);
    lemma_fundamental_div_mod(ro * n1, ri + n1);
    lemma_mod_bound(ro * n1, ri + n1);
    assert(q1 * (ri + n2) <= ro * n2) by (nonlinear_arith)
        requires
            ro >= 0,
            ri > 0,
            0 < n1 <= n2,
            ro * n1 == (ri + n1) * q1 + (ro * n1) % (ri + n1),
            0 <= (ro * n1) % (ri + n1),
            q1 >= 0,
    ;
    lemma_div_pos_is_pos(ro * n1, ri + n1);
    lemma_div_is_ordered(q1 * (ri + n2), ro * n2, ri + n2);
    lemma_div_by_multiple(q1, ri + n2);
}

/// On the same pool, quoting a larger input never yields a smaller output.
pub proof fn lemma_cpmm_quote_monotone(
    amount_small: u128,
    amount_large: u128,
    reserve_in: u128,
    reserve_out: u128,
    fee_rate_ppm: u32,
    is_approximate: bool,
)
    requires
        amount_small <= amount_large,
        cpmm_quote(amount_small, reserve_in, reserve_out, fee_rate_ppm, is_approximate) is Ok,
        cpmm_quote(amount_large, reserve_in, reserve_out, fee_rate_ppm, is_approximate) is Ok,
    ensures
        cpmm_quote(amount_small, reserve_in, reserve_out, fee_rate_ppm, is_approximate)->Ok_0.amount_out
            <= cpmm_quote(amount_large, reserve_in, reserve_out, fee_rate_ppm, is_approximate)->Ok_0.amount_out,
{
    lemma_net_monotone(amount_small, amount_large, fee_rate_ppm);
    let n1 = after_fee_spec(amount_small, fee_rate_ppm)->Ok_0.0;
    let n2 = after_fee_spec(amount_large, fee_rate_ppm)->Ok_0.0;
    lemma_floor_ratio_monotone(reserve_out as int, reserve_in as int, n1 as int, n2 as int);
}

/// A constant-product quote never pays more than the spot price: the
/// output times the input reserve is at most the traded input (after the
/// fee) times the output reserve.
pub proof fn lemma_cpmm_quote_below_spot(
    amount_in: u128,
    reserve_in: u128,
    reserve_out: u128,
    fee_rate_ppm: u32,
    is_approximate: bool,
)
    requires
        cpmm_quote(amount_in, reserve_in, reserve_out, fee_rate_ppm, is_approximate) is Ok,
    ensures
        ({
            let r = cpmm_quote(amount_in, reserve_in, reserve_out, fee_rate_ppm, is_approximate)->Ok_0;
            r.amount_out * reserve_in <= (amount_in - r.fee_amount) * reserve_out
        }),
{
    let (net, fee) = after_fee_spec(amount_in, fee_rate_ppm)->Ok_0;
    let ri = reserve_in as int;
    let ro = reserve_out as int;
    let n = net as int;
    let out = ro * n / (ri + n);
    lemma_fundamental_div_mod(ro * n, ri + n);
    lemma_mod_bound(ro * n, ri + n);
    assert(out * ri <= n * ro) by (nonlinear_arith)
        requires
            ri > 0,
            n > 0,
            out >= 0,
            ro * n == (ri + n) * out + (ro * n) % (ri + n),
            0 <= (ro * n) % (ri + n),
    ;
}

/// A concentrated-liquidity quote at the current price is the
/// constant-product quote against the pool's virtual reserves, token a's
/// being `L * 2^64 / sqrt_price` and token b's `L * sqrt_price / 2^64`: selling
/// token a puts a's reserve on the input side and takes b's as the output,
/// selling token b the reverse. So selling token a never yields more b than
/// the spot price `b / a` allows, and selling b never more a than `a / b`.
pub proof fn lemma_clmm_quote_direction(
    amount_in: u128,
    liquidity: u128,
    sqrt_price_x64: u128,
    fee_rate_ppm: u32,
)
    requires
        clmm_virtual_reserves_spec(liquidity, sqrt_price_x64) is Ok,
    ensures
        ({
            let va = liquidity * 0x1_0000_0000_0000_0000int / sqrt_price_x64 as int;
            let vb = liquidity * sqrt_price_x64 / 0x1_0000_0000_0000_0000int;
            &&& clmm_virtual_quote(amount_in, liquidity, sqrt_price_x64, true, fee_rate_ppm)
                == cpmm_quote(amount_in, va as u128, vb as u128, fee_rate_ppm, true)
            &&& clmm_virtual_quote(amount_in, liquidity, sqrt_price_x64, false, fee_rate_ppm)
                == cpmm_quote(amount_in, vb as u128, va as u128, fee_rate_ppm, true)
            &&& clmm_virtual_quote(amount_in, liquidity, sqrt_price_x64, true, fee_rate_ppm) matches Ok(r)
                ==> r.amount_out * va <= (amount_in - r.fee_amount) * vb
            &&& clmm_virtual_quote(amount_in, liquidity, sqrt_price_x64, false, fee_rate_ppm) matches Ok(r)
                ==> r.amount_out * vb <= (amount_in - r.fee_amount) * va
        }),
{
    let va = liquidity * 0x1_0000_0000_0000_0000int / sqrt_price_x64 as int;
    let vb = liquidity * sqrt_price_x64 / 0x1_0000_0000_0000_0000int;
    assert(clmm_virtual_reserves_spec(liquidity, sqrt_price_x64) == Ok::<(u128, u128), SimulationError>(
        (va as u128, vb as u128)));
    if cpmm_quote(amount_in, va as u128, vb as u128, fee_rate_ppm, true) is Ok {
        lemma_cpmm_quote_below_spot(amount_in, va as u128, vb as u128, fee_rate_ppm, true);
    }
    if cpmm_quote(amount_in, vb as u128, va as u128, fee_rate_ppm, true) is Ok {
        lemma_cpmm_quote_below_spot(amount_in, vb as u128, va as u128, fee_rate_ppm, true);
    }
}

} // verus!
