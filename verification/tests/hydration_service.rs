use swexa::hydration::{WHIRLPOOL_TICK_ARRAY_HEADER_SIZE, WHIRLPOOL_TICK_SIZE};
use swexa::hydration_service::{
    apply_meteora_accounts, apply_whirlpool_accounts, apply_whirlpool_tick_arrays,
    hydration_accounts, meteora_bin_array_addresses, whirlpool_tick_array_addresses,
};
use swexa::pda::{derive_meteora_bin_array_pda, derive_whirlpool_tick_array_pda, i32_to_decimal};
use swexa::pool::{
    ClmmState, DexProtocol, DlmmState, Pool, PoolData, PoolMetadata, PoolStatus, PoolToken,
    PoolType, PubkeyBytes,
};

fn mint(byte: u8) -> PubkeyBytes {
    PubkeyBytes([byte; 32])
}

fn whirlpool() -> Pool {
    Pool {
        metadata: PoolMetadata {
            id: 7,
            pubkey: mint(9),
            protocol: DexProtocol::Whirlpool,
            pool_type: PoolType::Clmm,
            status: PoolStatus::Active,
            token_a: PoolToken { mint: mint(1), name: "A".into(), symbol: "A".into(), decimals: 6, vault: Some(mint(3)) },
            token_b: PoolToken { mint: mint(2), name: "B".into(), symbol: "B".into(), decimals: 6, vault: Some(mint(4)) },
        },
        data: PoolData::Clmm(ClmmState {
            liquidity: None,
            sqrt_price_x64: None,
            current_tick_index: None,
            tick_spacing: 1,
            reserve_a: None,
            reserve_b: None,
            initialized_ticks: Vec::new(),
        }),
        fee_rate: 30,
        tvl_bits: None,
        last_updated_slot: None,
    }
}

fn whirlpool_account(matching: bool) -> Vec<u8> {
    let mut data = vec![0u8; 245];
    data[41..43].copy_from_slice(&4u16.to_le_bytes());
    data[45..47].copy_from_slice(&400u16.to_le_bytes());
    data[49..65].copy_from_slice(&77u128.to_le_bytes());
    data[65..81].copy_from_slice(&(1u128 << 64).to_le_bytes());
    data[81..85].copy_from_slice(&(-5i32).to_le_bytes());
    data[101..133].copy_from_slice(&mint(1).0);
    data[133..165].copy_from_slice(&mint(3).0);
    data[181..213].copy_from_slice(&mint(if matching { 2 } else { 8 }).0);
    data[213..245].copy_from_slice(&mint(4).0);
    data
}

fn vault(m: PubkeyBytes, amount: u64) -> Vec<u8> {
    let mut data = vec![0u8; 165];
    data[0..32].copy_from_slice(&m.0);
    data[64..72].copy_from_slice(&amount.to_le_bytes());
    data
}

#[test]
fn whirlpool_first_step_takes_matching_state_and_vaults() {
    let pool = whirlpool();
    assert_eq!(hydration_accounts(&pool), Some(vec![mint(9), mint(3), mint(4)]));
    let accounts = vec![Some(whirlpool_account(true)), Some(vault(mint(1), 500)), Some(vault(mint(7), 600))];
    let hydrated = apply_whirlpool_accounts(&pool, &accounts).unwrap();
    assert_eq!(hydrated.fee_rate, 400);
    match &hydrated.data {
        PoolData::Clmm(st) => {
            assert_eq!(st.liquidity, Some(77));
            assert_eq!(st.current_tick_index, Some(-5));
            assert_eq!(st.tick_spacing, 4);
            assert_eq!(st.reserve_a, Some(500));
            assert_eq!(st.reserve_b, None);
        }
        _ => panic!("state kind changed"),
    }
    let accounts = vec![Some(whirlpool_account(false)), Some(vault(mint(1), 500)), None];
    let unchanged = apply_whirlpool_accounts(&pool, &accounts).unwrap();
    assert_eq!(unchanged.fee_rate, 30);
    let accounts = vec![Some(whirlpool_account(false)), Some(vault(mint(1), 500)), Some(vec![])];
    let mismatched = apply_whirlpool_accounts(&pool, &accounts).unwrap();
    match &mismatched.data {
        PoolData::Clmm(st) => {
            assert_eq!(st.liquidity, None);
            assert_eq!(st.reserve_a, Some(500));
        }
        _ => panic!("state kind changed"),
    }
    let accounts = vec![Some(vec![0u8; 10]), Some(vault(mint(1), 500)), Some(vec![])];
    assert!(apply_whirlpool_accounts(&pool, &accounts).is_err());
}

#[test]
fn whirlpool_tick_arrays_are_merged_by_index() {
    let mut pool = whirlpool();
    assert!(whirlpool_tick_array_addresses(&pool).is_empty());
    if let PoolData::Clmm(st) = &mut pool.data {
        st.current_tick_index = Some(10);
        st.tick_spacing = 2;
    }
    // The Whirlpool program id does not decode to an address, so no tick
    // array address can be derived.
    assert!(derive_whirlpool_tick_array_pda(mint(9), 0).is_err());
    assert!(whirlpool_tick_array_addresses(&pool).is_empty());

    let mut array = vec![0u8; WHIRLPOOL_TICK_ARRAY_HEADER_SIZE + WHIRLPOOL_TICK_SIZE * 88];
    array[8..12].copy_from_slice(&0i32.to_le_bytes());
    for slot in [5usize, 1] {
        let off = WHIRLPOOL_TICK_ARRAY_HEADER_SIZE + slot * WHIRLPOOL_TICK_SIZE;
        array[off] = 1;
        array[off + 1..off + 17].copy_from_slice(&(slot as i128).to_le_bytes());
    }
    let hydrated = apply_whirlpool_tick_arrays(&pool, &vec![Some(array.clone()), None, Some(vec![1, 2]), Some(array)]);
    match &hydrated.data {
        PoolData::Clmm(st) => {
            let indices: Vec<i32> = st.initialized_ticks.iter().map(|t| t.index).collect();
            assert_eq!(indices, vec![2, 10]);
            assert_eq!(st.initialized_ticks[0].liquidity_net, 1);
        }
        _ => panic!("state kind changed"),
    }
}

#[test]
fn meteora_steps() {
    let mut pool = whirlpool();
    pool.metadata.protocol = DexProtocol::Meteora;
    pool.data = PoolData::Dlmm(DlmmState {
        active_bin_id: None,
        bin_step: 10,
        active_price_bits: None,
        reserve_a: None,
        reserve_b: None,
        bins: Vec::new(),
    });
    assert!(meteora_bin_array_addresses(&pool).is_empty());
    let mut pair = vec![0u8; 80];
    pair[76..80].copy_from_slice(&(-71i32).to_le_bytes());
    let hydrated = apply_meteora_accounts(&pool, &vec![Some(pair), None, Some(vault(mint(2), 9))]);
    match &hydrated.data {
        PoolData::Dlmm(st) => {
            assert_eq!(st.active_bin_id, Some(-71));
            assert_eq!(st.reserve_a, None);
            assert_eq!(st.reserve_b, Some(9));
        }
        _ => panic!("state kind changed"),
    }
    let addresses = meteora_bin_array_addresses(&hydrated);
    assert_eq!(addresses.len(), 7);
    assert_eq!(addresses[3], derive_meteora_bin_array_pda(mint(9), -2).unwrap());
}

#[test]
fn decimal_rendering_of_tick_indices() {
    assert_eq!(i32_to_decimal(0), b"0".to_vec());
    assert_eq!(i32_to_decimal(176), b"176".to_vec());
    assert_eq!(i32_to_decimal(-352), b"-352".to_vec());
    assert_eq!(i32_to_decimal(i32::MIN), i32::MIN.to_string().into_bytes());
}
