use swexa::adapters::{
    parse_raw_amount_text, raydium_pool_type, AmountError, ListingSkip, MeteoraAdapter,
    MeteoraPoolItem, MeteoraReadings, MeteoraToken, MeteoraTokenInfo, OrcaToken, RaydiumAdapter,
    OrcaPoolItem, OrcaTokenInfo, RaydiumMintInfo, RaydiumPoolItem, RaydiumReadings, WhirlpoolAdapter,
    WhirlpoolReadings,
};
use swexa::decimal::{parse_i32, parse_u128};
use swexa::pool::{DexProtocol, PoolData, PoolStatus, PoolType, PubkeyBytes};
use swexa::types::PoolType as EdgePoolType;

const SOL: &str = "So11111111111111111111111111111111111111112";
const USDC: &str = "EPjFWdd5AufqSSqeM2qN1xzybapC8G4wEGGkZwyTDt1v";
const TOKEN_PROGRAM: &str = "TokenkegQfeZyiNwAJbNbGKPFXCWuBvf9Ss623VQ5DA";
const SYSTEM: &str = "11111111111111111111111111111111";

fn token(address: &str, decimals: u32) -> MeteoraTokenInfo {
    MeteoraTokenInfo {
        address: address.to_string(),
        decimals,
        name: "Name".to_string(),
        symbol: "SYM".to_string(),
    }
}

fn listing(x_amount: f64, y_amount: f64) -> MeteoraPoolItem {
    MeteoraPoolItem {
        address: TOKEN_PROGRAM.to_string(),
        token_x: token(SOL, 9),
        token_y: token(USDC, 6),
        reserve_x: SYSTEM.to_string(),
        reserve_y: TOKEN_PROGRAM.to_string(),
        token_x_amount: serde_json::Number::from_f64(x_amount).unwrap().to_string(),
        token_y_amount: serde_json::Number::from_f64(y_amount).unwrap().to_string(),
        bin_step: 25,
        is_blacklisted: false,
    }
}

fn readings() -> MeteoraReadings {
    MeteoraReadings {
        below_min_tvl: false,
        tvl_bits: 50_000.0f64.to_bits(),
        active_price_bits: Some(0.075f64.to_bits()),
        fee_rate: Some(400),
    }
}

#[test]
fn parse_raw_amount_converts_ui_amount_to_atomic_units() {
    let amount = serde_json::Number::from_f64(19_510.703_014_063).unwrap();
    assert_eq!(MeteoraAdapter::parse_raw_amount(&amount.to_string(), 9).unwrap(), 19_510_703_014_063);

    let amount = serde_json::Number::from_f64(1_931_560.210_851).unwrap();
    assert_eq!(MeteoraAdapter::parse_raw_amount(&amount.to_string(), 6).unwrap(), 1_931_560_210_851);
}

#[test]
fn raw_amount_text_truncates_and_pads_the_fraction() {
    assert_eq!(parse_raw_amount_text("12.3456", 2), Ok(1234));
    assert_eq!(parse_raw_amount_text("7", 3), Ok(7000));
    assert_eq!(parse_raw_amount_text("0.5", 0), Ok(0));
    assert_eq!(parse_raw_amount_text("1.2.3", 2), Ok(120));
    assert_eq!(parse_raw_amount_text("abc", 2), Err(AmountError::InvalidAmount));
    assert_eq!(parse_raw_amount_text("", 0), Err(AmountError::InvalidAmount));
}

#[test]
fn raw_amount_text_reads_scientific_notation() {
    assert_eq!(parse_raw_amount_text("1.5e3", 6), Ok(1_500_000_000));
    assert_eq!(parse_raw_amount_text("1.5E3", 6), Ok(1_500_000_000));
    assert_eq!(parse_raw_amount_text("2.5e-7", 6), Ok(0));
    assert_eq!(parse_raw_amount_text("4e+2", 1), Ok(4_000));
    assert_eq!(parse_raw_amount_text("1e", 0), Err(AmountError::InvalidExponent));
    assert_eq!(parse_raw_amount_text("x1e2", 0), Err(AmountError::InvalidSignificand));
    assert_eq!(parse_raw_amount_text("9e38", 0), Err(AmountError::Overflow));
}

#[test]
fn raw_amount_rejects_exponents_beyond_38_places() {
    let amount = serde_json::Number::from_f64(1e50).unwrap();
    assert_eq!(MeteoraAdapter::parse_raw_amount(&amount.to_string(), 0), Err(AmountError::ShiftOutOfRange));
}

#[test]
fn integer_parsing_follows_from_str() {
    assert_eq!(parse_u128(b"+42"), Some(42));
    assert_eq!(parse_u128(b"+"), None);
    assert_eq!(parse_u128(b"-1"), None);
    assert_eq!(parse_u128(b"340282366920938463463374607431768211455"), Some(u128::MAX));
    assert_eq!(parse_u128(b"340282366920938463463374607431768211456"), None);
    assert_eq!(parse_i32(b"-2147483648"), Some(i32::MIN));
    assert_eq!(parse_i32(b"2147483648"), None);
    assert_eq!(parse_i32(b"-"), None);
    assert_eq!(parse_i32(b"+17"), Some(17));
}

#[test]
fn parse_pubkey_accepts_only_32_byte_addresses() {
    assert_eq!(MeteoraAdapter::parse_pubkey(SYSTEM), Some(PubkeyBytes([0u8; 32])));
    assert!(MeteoraAdapter::parse_pubkey(USDC).is_some());
    assert!(MeteoraAdapter::parse_pubkey("not base58!").is_none());
    assert!(MeteoraAdapter::parse_pubkey("1111").is_none());
}

#[test]
fn listing_becomes_a_dlmm_pool() {
    let item = listing(12.5, 3.25);
    let pool = MeteoraAdapter::convert_listing(&item, readings(), 7, Some(99)).unwrap();
    assert_eq!(pool.metadata.id, 7);
    assert_eq!(pool.metadata.protocol, DexProtocol::Meteora);
    assert_eq!(pool.metadata.pool_type, PoolType::Dlmm);
    assert_eq!(pool.metadata.status, PoolStatus::Active);
    assert_eq!(pool.metadata.token_a.decimals, 9);
    assert_eq!(pool.metadata.token_a.vault, Some(PubkeyBytes([0u8; 32])));
    assert_eq!(pool.fee_rate, 400);
    assert_eq!(pool.last_updated_slot, Some(99));
    match pool.data {
        PoolData::Dlmm(st) => {
            assert_eq!(st.bin_step, 25);
            assert_eq!(st.reserve_a, Some(12_500_000_000));
            assert_eq!(st.reserve_b, Some(3_250_000));
            assert_eq!(st.active_bin_id, None);
        }
        _ => panic!("expected a DLMM pool"),
    }
}

#[test]
fn listing_checks_come_in_order() {
    let mut item = listing(1.0, 1.0);
    item.is_blacklisted = true;
    let mut rd = readings();
    rd.below_min_tvl = true;
    assert_eq!(MeteoraAdapter::convert_listing(&item, rd, 0, None).unwrap_err(), ListingSkip::Blacklisted);
    item.is_blacklisted = false;
    assert_eq!(MeteoraAdapter::convert_listing(&item, rd, 0, None).unwrap_err(), ListingSkip::LowTvl);

    let mut bad = listing(1.0, 1.0);
    bad.reserve_y = "nope".to_string();
    assert_eq!(MeteoraAdapter::convert_listing(&bad, readings(), 0, None).unwrap_err(), ListingSkip::InvalidAddress);

    assert_eq!(MeteoraAdapter::convert_listing(&listing(0.0, 1.0), readings(), 0, None).unwrap_err(), ListingSkip::EmptyReserve);

    let mut no_price = readings();
    no_price.active_price_bits = None;
    assert_eq!(MeteoraAdapter::convert_listing(&listing(1.0, 1.0), no_price, 0, None).unwrap_err(), ListingSkip::InvalidPrice);

    let mut zero_step = listing(1.0, 1.0);
    zero_step.bin_step = 0;
    assert_eq!(MeteoraAdapter::convert_listing(&zero_step, readings(), 0, None).unwrap_err(), ListingSkip::InvalidBinStep);
    zero_step.bin_step = 70_000;
    assert_eq!(MeteoraAdapter::convert_listing(&zero_step, readings(), 0, None).unwrap_err(), ListingSkip::InvalidBinStep);

    let mut no_fee = readings();
    no_fee.fee_rate = None;
    assert_eq!(MeteoraAdapter::convert_listing(&listing(1.0, 1.0), no_fee, 0, None).unwrap_err(), ListingSkip::InvalidFee);
}

#[test]
fn listing_with_unreadable_reserve_is_skipped() {
    let item = listing(1e50, 1.0);
    assert_eq!(
        MeteoraAdapter::convert_listing(&item, readings(), 0, None).unwrap_err(),
        ListingSkip::InvalidAmount(AmountError::ShiftOutOfRange)
    );
}

#[test]
fn page_conversion_numbers_pools_and_tracks_the_tvl_floor() {
    let mut blacklisted = listing(1.0, 1.0);
    blacklisted.is_blacklisted = true;
    let items = vec![listing(1.0, 2.0), blacklisted, listing(0.0, 1.0), listing(3.0, 4.0)];
    let rds = vec![readings(), readings(), readings(), readings()];
    let mut next_id = 10;
    let (pools, all_below) = MeteoraAdapter::convert_page(&items, &rds, &mut next_id, None);
    assert_eq!(pools.iter().map(|p| p.metadata.id).collect::<Vec<_>>(), vec![10, 11]);
    assert_eq!(next_id, 12);
    assert!(!all_below);

    let mut low = readings();
    low.below_min_tvl = true;
    let (pools, all_below) = MeteoraAdapter::convert_page(&vec![listing(1.0, 1.0)], &vec![low], &mut next_id, None);
    assert!(pools.is_empty());
    assert!(all_below);
    assert_eq!(next_id, 12);
}

#[test]
fn next_page_is_fetched_until_the_last_or_a_low_page() {
    assert!(MeteoraAdapter::should_fetch_next_page(false, 1, 3));
    assert!(!MeteoraAdapter::should_fetch_next_page(false, 3, 3));
    assert!(!MeteoraAdapter::should_fetch_next_page(true, 1, 3));
}

#[test]
fn listing_tokens_become_routing_tokens() {
    let unnamed = MeteoraToken { address: SOL.to_string(), symbol: None, decimals: 9 };
    assert_eq!(unnamed.token_mint().symbol, "Unknown");
    let named = MeteoraToken { address: SOL.to_string(), symbol: Some("SOL".to_string()), decimals: 9 };
    assert_eq!(named.token_mint().symbol, "SOL");
    let ray = RaydiumMintInfo { address: USDC.to_string(), symbol: "USDC".to_string(), decimals: 6 };
    assert_eq!(ray.token_mint().mint, USDC);
    let orca = OrcaToken { mint: SOL.to_string(), symbol: String::new(), decimals: 9 };
    assert_eq!(orca.token_mint().decimals, 9);
}

#[test]
fn raydium_pool_types() {
    assert_eq!(raydium_pool_type("Concentrated"), EdgePoolType::ConcentratedLiquidity);
    assert_eq!(raydium_pool_type("Standard"), EdgePoolType::Amm);
    assert_eq!(raydium_pool_type("concentrated"), EdgePoolType::Amm);
}

fn raydium_item(kind: &str, tick_spacing: Option<u16>) -> RaydiumPoolItem {
    RaydiumPoolItem {
        id: TOKEN_PROGRAM.to_string(),
        kind_name: kind.to_string(),
        mint_a: RaydiumMintInfo { address: SOL.to_string(), symbol: "SOL".to_string(), decimals: 9 },
        mint_b: RaydiumMintInfo { address: USDC.to_string(), symbol: "USDC".to_string(), decimals: 6 },
        tick_spacing,
    }
}

fn raydium_readings() -> RaydiumReadings {
    RaydiumReadings { below_min_tvl: false, tvl_bits: 5_000.0f64.to_bits(), fee_rate: 2_500 }
}

#[test]
fn raydium_standard_listing_is_a_cpmm_pool() {
    let pool = RaydiumAdapter::pool_from_parts(&raydium_item("Standard", None), Ok(10), Ok(20), raydium_readings(), 3, None).unwrap();
    assert_eq!(pool.metadata.pool_type, PoolType::Cpmm);
    assert_eq!(pool.metadata.protocol, DexProtocol::Raydium);
    assert_eq!(pool.metadata.token_b.symbol, "USDC");
    assert_eq!(pool.metadata.token_a.vault, None);
    assert_eq!(pool.fee_rate, 2_500);
    match pool.data {
        PoolData::Cpmm(st) => assert_eq!((st.reserve_a, st.reserve_b), (10, 20)),
        _ => panic!("expected a constant-product pool"),
    }
    assert_eq!(
        RaydiumAdapter::pool_from_parts(&raydium_item("Standard", None), Ok(0), Ok(20), raydium_readings(), 3, None).unwrap_err(),
        ListingSkip::EmptyReserve
    );
    assert_eq!(
        RaydiumAdapter::pool_from_parts(&raydium_item("Standard", None), Ok(1), Err(AmountError::InvalidAmount), raydium_readings(), 3, None).unwrap_err(),
        ListingSkip::InvalidAmount(AmountError::InvalidAmount)
    );
}

#[test]
fn raydium_concentrated_listing_needs_its_config() {
    let pool = RaydiumAdapter::pool_from_parts(&raydium_item("Concentrated", Some(64)), Err(AmountError::InvalidAmount), Ok(0), raydium_readings(), 4, Some(7)).unwrap();
    assert_eq!(pool.metadata.pool_type, PoolType::Clmm);
    match pool.data {
        PoolData::Clmm(st) => {
            assert_eq!(st.tick_spacing, 64);
            assert!(st.liquidity.is_none() && st.sqrt_price_x64.is_none());
        }
        _ => panic!("expected a concentrated-liquidity pool"),
    }
    assert_eq!(
        RaydiumAdapter::pool_from_parts(&raydium_item("Concentrated", None), Ok(1), Ok(1), raydium_readings(), 4, None).unwrap_err(),
        ListingSkip::MissingConfig
    );
    assert_eq!(
        RaydiumAdapter::pool_from_parts(&raydium_item("Stable", None), Ok(1), Ok(1), raydium_readings(), 4, None).unwrap_err(),
        ListingSkip::UnknownPoolType
    );
    let mut low = raydium_readings();
    low.below_min_tvl = true;
    assert_eq!(
        RaydiumAdapter::pool_from_parts(&raydium_item("Standard", None), Ok(1), Ok(1), low, 4, None).unwrap_err(),
        ListingSkip::LowTvl
    );
}

#[test]
fn raydium_plain_amounts_are_read_exactly() {
    assert_eq!(RaydiumAdapter::parse_plain_amount("1.25", 2), Some(Ok(125)));
    assert_eq!(RaydiumAdapter::parse_plain_amount("1.23e+19", 2), None);
}

fn orca_item() -> OrcaPoolItem {
    OrcaPoolItem {
        address: TOKEN_PROGRAM.to_string(),
        tick_spacing: 64,
        fee_rate: 3_000,
        liquidity: "123456789".to_string(),
        sqrt_price: "18446744073709551616".to_string(),
        tick_current_index: -42,
        token_mint_a: SOL.to_string(),
        token_vault_a: SYSTEM.to_string(),
        token_mint_b: USDC.to_string(),
        token_vault_b: TOKEN_PROGRAM.to_string(),
        token_a: OrcaTokenInfo { decimals: 9, name: "Wrapped SOL".to_string(), symbol: "SOL".to_string() },
        token_b: OrcaTokenInfo { decimals: 6, name: "USD Coin".to_string(), symbol: "USDC".to_string() },
    }
}

fn orca_readings() -> WhirlpoolReadings {
    WhirlpoolReadings { tvl_bits: Some(2_000_000.0f64.to_bits()), below_min_tvl: false }
}

#[test]
fn whirlpool_listing_becomes_a_clmm_pool() {
    let pool = WhirlpoolAdapter::pool_from_listing(&orca_item(), orca_readings(), 11, Some(5)).unwrap();
    assert_eq!(pool.metadata.protocol, DexProtocol::Whirlpool);
    assert_eq!(pool.metadata.token_b.name, "USD Coin");
    assert_eq!(pool.fee_rate, 3_000);
    match pool.data {
        PoolData::Clmm(st) => {
            assert_eq!(st.liquidity, Some(123_456_789));
            assert_eq!(st.sqrt_price_x64, Some(1u128 << 64));
            assert_eq!(st.current_tick_index, Some(-42));
            assert_eq!(st.tick_spacing, 64);
        }
        _ => panic!("expected a concentrated-liquidity pool"),
    }
}

#[test]
fn whirlpool_listing_checks_come_in_order() {
    let mut item = orca_item();
    item.token_vault_b = "?".to_string();
    assert_eq!(WhirlpoolAdapter::pool_from_listing(&item, orca_readings(), 0, None).unwrap_err(), ListingSkip::InvalidAddress);
    let mut item = orca_item();
    item.sqrt_price = "12.5".to_string();
    assert_eq!(WhirlpoolAdapter::pool_from_listing(&item, orca_readings(), 0, None).unwrap_err(), ListingSkip::InvalidNumber);
    let mut item = orca_item();
    item.liquidity = "0".to_string();
    assert_eq!(WhirlpoolAdapter::pool_from_listing(&item, orca_readings(), 0, None).unwrap_err(), ListingSkip::NoLiquidity);
    let no_tvl = WhirlpoolReadings { tvl_bits: None, below_min_tvl: true };
    assert_eq!(WhirlpoolAdapter::pool_from_listing(&orca_item(), no_tvl, 0, None).unwrap_err(), ListingSkip::InvalidTvl);
    let low = WhirlpoolReadings { tvl_bits: Some(10.0f64.to_bits()), below_min_tvl: true };
    assert_eq!(WhirlpoolAdapter::pool_from_listing(&orca_item(), low, 0, None).unwrap_err(), ListingSkip::LowTvl);
}

#[test]
fn raydium_page_numbers_the_accepted_listings() {
    let items = vec![raydium_item("Standard", None), raydium_item("Stable", None), raydium_item("Concentrated", Some(8))];
    let reserves = vec![(Ok(10), Ok(20)), (Ok(1), Ok(1)), (Ok(0), Ok(0))];
    let readings = vec![raydium_readings(), raydium_readings(), raydium_readings()];
    let mut next_id = 40;
    let pools = RaydiumAdapter::convert_page(&items, &reserves, &readings, &mut next_id, None);
    assert_eq!(pools.len(), 2);
    assert_eq!((pools[0].metadata.id, pools[1].metadata.id), (40, 41));
    assert_eq!(pools[0].metadata.pool_type, PoolType::Cpmm);
    assert_eq!(pools[1].metadata.pool_type, PoolType::Clmm);
    assert_eq!(next_id, 42);
}

#[test]
fn whirlpool_page_numbers_the_accepted_listings() {
    let mut dry = orca_item();
    dry.liquidity = "0".to_string();
    let items = vec![dry, orca_item(), orca_item()];
    let readings = vec![orca_readings(), orca_readings(), orca_readings()];
    let mut next_id = 0;
    let pools = WhirlpoolAdapter::convert_page(&items, &readings, &mut next_id, Some(3));
    assert_eq!(pools.len(), 2);
    assert_eq!((pools[0].metadata.id, pools[1].metadata.id), (0, 1));
    assert_eq!(pools[1].last_updated_slot, Some(3));
    assert_eq!(next_id, 2);
}
