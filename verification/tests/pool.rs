use swexa::error::SimulationError;
use swexa::pool::{
    cap_to_reserve, paginate_pools, ClmmState, ClmmTick, CpmmState, DexProtocol, DlmmState,
    OrderbookState, Pool, PoolData, PoolMetadata, PoolStatus, PoolToken, PoolType, PubkeyBytes,
    SwapQuote,
};
use swexa::swap_math::{simulate_clmm_virtual_reserves, simulate_cpmm};
use swexa::quote_service::{candidate_pool_subset, RouteStep};

fn mint(byte: u8) -> PubkeyBytes {
    PubkeyBytes([byte; 32])
}

fn token(m: PubkeyBytes, vault: Option<PubkeyBytes>) -> PoolToken {
    PoolToken { mint: m, name: "A".to_string(), symbol: "A".to_string(), decimals: 6, vault }
}

fn pool_with(id: u32, data: PoolData) -> Pool {
    Pool {
        metadata: PoolMetadata {
            id,
            pubkey: PubkeyBytes([id as u8; 32]),
            protocol: DexProtocol::Raydium,
            pool_type: PoolType::Cpmm,
            status: PoolStatus::Active,
            token_a: token(mint(1), None),
            token_b: token(mint(2), None),
        },
        data,
        fee_rate: 0,
        tvl_bits: Some(1_000.0f64.to_bits()),
        last_updated_slot: None,
    }
}

fn pool(id: u32) -> Pool {
    pool_with(id, PoolData::Cpmm(CpmmState { reserve_a: 1_000, reserve_b: 1_000 }))
}

fn clmm_pool(reserve_a: Option<u128>, reserve_b: Option<u128>) -> Pool {
    let mut p = pool_with(
        1,
        PoolData::Clmm(ClmmState {
            liquidity: Some(1_000_000),
            sqrt_price_x64: Some(1u128 << 64),
            current_tick_index: Some(0),
            tick_spacing: 1,
            reserve_a,
            reserve_b,
            initialized_ticks: Vec::new(),
        }),
    );
    p.metadata.protocol = DexProtocol::Whirlpool;
    p.metadata.pool_type = PoolType::Clmm;
    p.last_updated_slot = Some(1);
    p
}

#[test]
fn paginate_pools_clamps_and_slices() {
    let pools = vec![pool(1), pool(2), pool(3)];
    let page = paginate_pools(&pools, 2, 2);

    assert_eq!(page.total, 3);
    assert_eq!(page.page, 2);
    assert_eq!(page.page_size, 2);
    assert_eq!(page.data.len(), 1);
    assert_eq!(page.data[0].metadata.id, 3);
}

#[test]
fn paginate_pools_edges() {
    let pools = vec![pool(1), pool(2), pool(3)];
    let first = paginate_pools(&pools, 0, 0);
    assert_eq!((first.page, first.page_size, first.data.len()), (1, 1, 1));
    assert_eq!(first.data[0].metadata.id, 1);
    let far = paginate_pools(&pools, usize::MAX, 1_000_000);
    assert_eq!(far.page_size, 1_000);
    assert_eq!(far.data.len(), 0);
}

#[test]
fn clmm_quote_respects_hydrated_output_reserve() {
    let pool = clmm_pool(Some(1_000_000), Some(10));
    assert_eq!(pool.simulate_swap(&mint(1), 1_000).unwrap_err(), SimulationError::InsufficientLiquidity);
}

#[test]
fn clmm_quote_allows_missing_reserve_caps() {
    let pool = clmm_pool(None, None);
    match pool.simulate_swap(&mint(1), 1_000).unwrap() {
        SwapQuote::Exact(result) => {
            assert!(result.amount_out > 0);
            assert!(result.is_approximate);
            assert_eq!(Ok(result), simulate_clmm_virtual_reserves(1_000, 1_000_000, 1u128 << 64, true, 0));
        }
        other => panic!("unexpected quote {other:?}"),
    }
}

#[test]
fn swap_dispatch_by_pool_kind() {
    let cpmm = pool(1);
    assert_eq!(cpmm.simulate_swap(&mint(3), 10).unwrap_err(), SimulationError::MismatchedMint);
    assert_eq!(cpmm.simulate_swap(&mint(1), 0).unwrap_err(), SimulationError::ZeroInput);
    match cpmm.simulate_swap(&mint(2), 10).unwrap() {
        SwapQuote::Exact(r) => assert_eq!(Ok(r), simulate_cpmm(10, 1_000, 1_000, 0, false)),
        other => panic!("unexpected quote {other:?}"),
    }
    let book = pool_with(2, PoolData::Orderbook(OrderbookState { market_pubkey: mint(5), base_lot_size: 1, quote_lot_size: 1 }));
    assert_eq!(book.simulate_swap(&mint(1), 10).unwrap_err(), SimulationError::UnsupportedPoolType);
    let dlmm = pool_with(3, PoolData::Dlmm(DlmmState {
        active_bin_id: None,
        bin_step: 4,
        active_price_bits: None,
        reserve_a: None,
        reserve_b: None,
        bins: Vec::new(),
    }));
    assert_eq!(dlmm.simulate_swap(&mint(1), 10).unwrap_err(), SimulationError::InsufficientLiquidity);
    let mut ticked = clmm_pool(Some(7), Some(8));
    if let PoolData::Clmm(st) = &mut ticked.data {
        st.initialized_ticks.push(ClmmTick { index: 5, liquidity_net: 1 });
    }
    match ticked.simulate_swap(&mint(2), 10).unwrap() {
        SwapQuote::ClmmTicks { a_to_b, reserve_out, current_tick_index, .. } => {
            assert!(!a_to_b);
            assert_eq!(reserve_out, Some(7));
            assert_eq!(current_tick_index, 0);
        }
        other => panic!("unexpected quote {other:?}"),
    }
}

#[test]
fn pool_accessors() {
    let mut p = pool(4);
    assert!(p.is_active());
    assert!(p.is_stale(10, 5));
    p.last_updated_slot = Some(8);
    assert!(!p.is_stale(10, 5));
    assert!(p.is_stale(20, 5));
    assert!(!p.is_stale(3, 0));
    assert_eq!(p.get_output_token(&mint(1)), Some(mint(2)));
    assert_eq!(p.get_output_token(&mint(2)), Some(mint(1)));
    assert_eq!(p.get_output_token(&mint(9)), None);
    assert!(p.is_input_token_a(&mint(1)));
    assert_eq!(p.canonical_mint_order(), (mint(1), mint(2)));
    p.metadata.token_a.mint = mint(200);
    assert_eq!(p.canonical_mint_order(), (mint(2), mint(200)));
    assert_eq!(p.pool_id(), 4);
    p.metadata.status = PoolStatus::Disabled;
    assert!(!p.is_active());
}

#[test]
fn cap_to_reserve_limits_output() {
    let r = simulate_cpmm(10, 1_000, 1_000, 0, false);
    assert_eq!(cap_to_reserve(r, None), r);
    assert_eq!(cap_to_reserve(r, Some(1_000)), r);
    assert_eq!(cap_to_reserve(r, Some(1)), Err(SimulationError::InsufficientLiquidity));
}

fn step(pool_id: u32) -> RouteStep {
    RouteStep { pool_id, input_mint: mint(1), output_mint: mint(2) }
}

#[test]
fn candidate_pool_subset_keeps_only_route_pools() {
    let pools = vec![pool(3), pool(1), pool(2), pool(9)];
    let routes = vec![vec![step(2), step(9)], vec![step(1)], vec![step(2), step(7)]];
    let subset = candidate_pool_subset(&pools, &routes);
    let ids: Vec<u32> = subset.iter().map(|p| p.metadata.id).collect();
    assert_eq!(ids, vec![1, 2, 9]);
}

#[test]
fn candidate_pool_subset_takes_the_last_pool_of_an_id() {
    let mut second = pool(5);
    second.fee_rate = 77;
    let pools = vec![pool(5), second];
    let subset = candidate_pool_subset(&pools, &[vec![step(5)]]);
    assert_eq!(subset.len(), 1);
    assert_eq!(subset[0].fee_rate, 77);
    assert!(candidate_pool_subset(&pools, &[]).is_empty());
}
