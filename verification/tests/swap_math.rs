use swexa::error::SimulationError;
use swexa::swap_math::{
    amount_after_fee, clmm_virtual_reserves, fee_amount, simulate_clmm_virtual_reserves,
    simulate_cpmm,
};
use swexa::wide::{div_u256_by_u128, mul_u128_u128};

#[test]
fn cpmm_uses_integer_math() {
    let result = simulate_cpmm(1_000, 10_000, 20_000, 3_000, false).unwrap();
    let amount_after_fee = 997;
    assert_eq!(result.fee_amount, 3);
    assert_eq!(result.amount_out, 20_000 * amount_after_fee / (10_000 + amount_after_fee));
    assert!(!result.is_approximate);
}

#[test]
fn fee_rejects_excessive_rate() {
    assert_eq!(
        simulate_cpmm(1_000, 10_000, 20_000, 1_000_000, false),
        Err(SimulationError::FeeExceedsInput)
    );
}

#[test]
fn clmm_virtual_reserves_quote() {
    let sqrt_price_x64 = 1u128 << 64;
    let result = simulate_clmm_virtual_reserves(1_000, 1_000_000, sqrt_price_x64, true, 0).unwrap();
    assert!(result.amount_out > 0);
    assert!(result.is_approximate);
}

#[test]
fn fee_amount_rounds_down_and_checks_rate() {
    assert_eq!(fee_amount(1_000, 3_000), Ok(3));
    assert_eq!(fee_amount(999, 1_000), Ok(0));
    assert_eq!(fee_amount(1, 999_999), Ok(0));
    assert_eq!(fee_amount(u128::MAX, 2), Err(SimulationError::Overflow));
    assert_eq!(amount_after_fee(0, 0), Err(SimulationError::ZeroInput));
    assert_eq!(amount_after_fee(1_000, 3_000), Ok((997, 3)));
}

#[test]
fn cpmm_errors() {
    assert_eq!(simulate_cpmm(1, 0, 5, 0, false), Err(SimulationError::InsufficientLiquidity));
    assert_eq!(simulate_cpmm(1, 1_000_000, 5, 0, false), Err(SimulationError::InsufficientLiquidity));
    assert_eq!(simulate_cpmm(10, u128::MAX, u128::MAX, 0, false), Err(SimulationError::Overflow));
}

#[test]
fn cpmm_keeps_product_and_is_monotone() {
    let (ri, ro) = (50_000u128, 80_000u128);
    let mut last = 0;
    for amount in [10u128, 100, 1_000, 10_000] {
        let r = simulate_cpmm(amount, ri, ro, 2_500, false).unwrap();
        assert!(r.amount_out < ro);
        assert!((ri + amount - r.fee_amount) * (ro - r.amount_out) >= ri * ro);
        assert!(r.amount_out >= last);
        last = r.amount_out;
    }
}

#[test]
fn clmm_virtual_reserves_exact_values() {
    assert_eq!(clmm_virtual_reserves(1_000_000, 1u128 << 64), Ok((1_000_000, 1_000_000)));
    assert_eq!(clmm_virtual_reserves(1_000, 2u128 << 64), Ok((500, 2_000)));
    assert_eq!(clmm_virtual_reserves(0, 1), Err(SimulationError::InsufficientLiquidity));
    assert_eq!(clmm_virtual_reserves(u128::MAX, u128::MAX), Err(SimulationError::Overflow));
}

#[test]
fn wide_arithmetic() {
    assert_eq!(mul_u128_u128(u128::MAX, u128::MAX), (u128::MAX - 1, 1));
    assert_eq!(mul_u128_u128(1u128 << 64, 1u128 << 64), (1, 0));
    assert_eq!(div_u256_by_u128(1, 0, 1u128 << 64), Some(1u128 << 64));
    assert_eq!(div_u256_by_u128(0, 10, 3), Some(3));
    assert_eq!(div_u256_by_u128(1, 0, 1), None);
    assert_eq!(div_u256_by_u128(0, 10, 0), None);
}

#[test]
fn simulation_errors_describe_themselves() {
    assert_eq!(SimulationError::ZeroInput.message(), "swap input amount is zero");
    assert_eq!(SimulationError::InsufficientLiquidity.message(), "insufficient liquidity");
    assert_eq!(SimulationError::UnsupportedPoolType.message(), "pool type is unsupported");
}
