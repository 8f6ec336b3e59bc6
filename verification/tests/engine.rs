use swexa::base58::{bs58_decode, bs58_decode_opt, parse_address, parse_pool_address, AddressError};
use swexa::engine::account_resolver::{
    required_accounts_for_pool, resolve_meteora_dlmm, resolve_raydium_amm, resolve_raydium_clmm,
    resolve_swap_accounts, resolve_whirlpool, AccountCache,
};
use swexa::engine::instruction_builder::{
    build_meteora_dlmm_swap, build_raydium_amm_swap, build_raydium_clmm_swap,
    build_swap_instruction, build_whirlpool_swap, output_mint_for_hop, resolve_direction,
    AccountMetaBytes, SwapAccounts, SwapDirection, METEORA_DLMM_PROGRAM_ID,
    RAYDIUM_AMM_PROGRAM_ID, RAYDIUM_CLMM_PROGRAM_ID, TOKEN_PROGRAM_ID, WHIRLPOOL_PROGRAM_ID,
};
use swexa::error::EngineError;
use swexa::pool::PubkeyBytes;
use swexa::types::{DexProtocol, PoolEdge, PoolType, TokenMint};

fn test_pool(a: &str, b: &str) -> PoolEdge {
    PoolEdge {
        address: "pool_address".to_string(),
        dex: DexProtocol::Raydium,
        token_a: TokenMint { mint: a.to_string(), symbol: a.to_string(), decimals: 9 },
        token_b: TokenMint { mint: b.to_string(), symbol: b.to_string(), decimals: 9 },
        fee_rate_bits: 0.003f64.to_bits(),
        tvl_bits: 100_000.0f64.to_bits(),
        pool_type: PoolType::Amm,
    }
}

fn dummy_accounts() -> SwapAccounts {
    SwapAccounts {
        pool_state: PubkeyBytes([1u8; 32]),
        token_a_vault: PubkeyBytes([2u8; 32]),
        token_b_vault: PubkeyBytes([3u8; 32]),
        user_source_token_account: PubkeyBytes([4u8; 32]),
        user_destination_token_account: PubkeyBytes([5u8; 32]),
        user_authority: PubkeyBytes([6u8; 32]),
        extra_accounts: vec![],
    }
}

#[test]
fn program_ids_decode() {
    assert!(parse_address(RAYDIUM_AMM_PROGRAM_ID).is_ok());
    assert!(parse_address(RAYDIUM_CLMM_PROGRAM_ID).is_ok());
    assert!(parse_address(METEORA_DLMM_PROGRAM_ID).is_ok());
    assert!(parse_address(TOKEN_PROGRAM_ID).is_ok());
    // The Whirlpool id this crate carries decodes to 30 bytes, not 32.
    assert_eq!(parse_address(WHIRLPOOL_PROGRAM_ID), Err(AddressError::InvalidLength { len: 30 }));
}

#[test]
fn resolve_direction_a_to_b() {
    let pool = test_pool("SOL", "USDC");
    assert_eq!(resolve_direction(&pool, "SOL").unwrap(), SwapDirection::AtoB);
    assert_eq!(resolve_direction(&pool, "USDC").unwrap(), SwapDirection::BtoA);
}

#[test]
fn resolve_direction_unknown_mint_errors() {
    let pool = test_pool("SOL", "USDC");
    assert!(resolve_direction(&pool, "BONK").is_err());
}

#[test]
fn output_mint_follows_direction() {
    let pool = test_pool("SOL", "USDC");
    assert_eq!(output_mint_for_hop(&pool, "SOL").unwrap(), "USDC");
    assert_eq!(output_mint_for_hop(&pool, "USDC").unwrap(), "SOL");
}

#[test]
fn output_mint_unknown_mint_errors() {
    let pool = test_pool("SOL", "USDC");
    assert!(output_mint_for_hop(&pool, "BONK").is_err());
}

#[test]
fn raydium_amm_instruction_data_is_17_bytes() {
    let accounts = dummy_accounts();
    let instructions = build_raydium_amm_swap(SwapDirection::AtoB, 1000, 900, &accounts).unwrap();
    assert_eq!(instructions.len(), 1);
    assert_eq!(instructions[0].data.len(), 17);
    assert_eq!(instructions[0].data[0], 9);
}

#[test]
fn raydium_amm_layout_and_accounts() {
    let mut accounts = dummy_accounts();
    accounts.extra_accounts.push(AccountMetaBytes::writable(PubkeyBytes([7u8; 32]), false));
    let ix = build_raydium_amm_swap(SwapDirection::BtoA, 1000, 900, &accounts).unwrap();
    let mut expected = vec![9u8];
    expected.extend_from_slice(&1000u64.to_le_bytes());
    expected.extend_from_slice(&900u64.to_le_bytes());
    assert_eq!(ix[0].data, expected);
    assert_eq!(ix[0].program_id, parse_address(RAYDIUM_AMM_PROGRAM_ID).unwrap());
    let keys: Vec<PubkeyBytes> = ix[0].accounts.iter().map(|m| m.pubkey).collect();
    let token = parse_address(TOKEN_PROGRAM_ID).unwrap();
    assert_eq!(
        keys,
        vec![
            PubkeyBytes([1u8; 32]),
            PubkeyBytes([6u8; 32]),
            PubkeyBytes([4u8; 32]),
            PubkeyBytes([5u8; 32]),
            PubkeyBytes([3u8; 32]),
            PubkeyBytes([2u8; 32]),
            token,
            PubkeyBytes([7u8; 32]),
        ]
    );
    assert!(ix[0].accounts[1].is_signer && !ix[0].accounts[1].is_writable);
    assert!(!ix[0].accounts[6].is_writable);
}

#[test]
fn clmm_whirlpool_and_meteora_layouts() {
    let accounts = dummy_accounts();
    let clmm = build_raydium_clmm_swap(SwapDirection::AtoB, 5, 4, &accounts).unwrap();
    assert_eq!(clmm[0].data.len(), 41);
    assert_eq!(&clmm[0].data[0..8], &[248, 198, 158, 145, 225, 117, 135, 200]);
    assert_eq!(clmm[0].data[40], 1);
    assert!(clmm[0].data[24..40].iter().all(|b| *b == 0));

    assert!(build_whirlpool_swap(SwapDirection::BtoA, 5, 4, &accounts).is_err());

    let met = build_meteora_dlmm_swap(SwapDirection::AtoB, 5, 4, &accounts).unwrap();
    assert_eq!(met[0].data.len(), 25);
    assert_eq!(met[0].data[24], 1);
    assert_eq!(met[0].program_id, parse_address(METEORA_DLMM_PROGRAM_ID).unwrap());
}

#[test]
fn unsupported_pool_kind_is_rejected() {
    let mut pool = test_pool("SOL", "USDC");
    pool.pool_type = PoolType::Dlmm;
    let r = build_swap_instruction(&pool, SwapDirection::AtoB, 1, 0, &dummy_accounts());
    assert_eq!(
        r.unwrap_err(),
        EngineError::UnsupportedPool { dex: DexProtocol::Raydium, pool_type: PoolType::Dlmm }
    );
    pool.dex = DexProtocol::Meteora;
    let r = build_swap_instruction(&pool, SwapDirection::AtoB, 1, 0, &dummy_accounts()).unwrap();
    assert_eq!(r[0].data.len(), 25);
    pool.dex = DexProtocol::Whirlpool;
    let r = build_swap_instruction(&pool, SwapDirection::AtoB, 1, 0, &dummy_accounts());
    assert_eq!(r.unwrap_err(), EngineError::InvalidProgramId);
}

#[test]
fn base58_decodes_leading_ones_as_zero_bytes() {
    assert_eq!(bs58_decode("").unwrap(), Vec::<u8>::new());
    assert_eq!(bs58_decode("11").unwrap(), vec![0u8, 0u8]);
    assert_eq!(bs58_decode("2").unwrap(), vec![1u8]);
    assert_eq!(bs58_decode("z").unwrap(), vec![57u8]);
    assert_eq!(bs58_decode("21").unwrap(), vec![58u8]);
    assert_eq!(bs58_decode("5R").unwrap(), vec![1u8, 0u8]);
    assert_eq!(bs58_decode("15R").unwrap(), vec![0u8, 1u8, 0u8]);
    assert_eq!(bs58_decode("11111111111111111111111111111111").unwrap(), vec![0u8; 32]);
}

#[test]
fn base58_rejects_characters_outside_the_alphabet() {
    assert_eq!(bs58_decode("ab0c"), Err(AddressError::InvalidCharacter { byte: b'0' }));
    assert_eq!(bs58_decode("OIl"), Err(AddressError::InvalidCharacter { byte: b'O' }));
    assert_eq!(bs58_decode_opt("SOL_TEST_MINT"), None);
    assert_eq!(parse_address("2"), Err(AddressError::InvalidLength { len: 1 }));
    assert_eq!(parse_pool_address("11111111111111111111111111111111").unwrap(), PubkeyBytes([0u8; 32]));
}

#[test]
fn token_program_decodes_to_its_known_bytes() {
    let token = parse_address(TOKEN_PROGRAM_ID).unwrap();
    assert_eq!(&token.0[0..4], &[6, 221, 246, 225]);
}

fn amm_data() -> Vec<u8> {
    let mut data = vec![0u8; 264];
    data[136..168].copy_from_slice(&[11u8; 32]);
    data[168..200].copy_from_slice(&[12u8; 32]);
    data[200..232].copy_from_slice(&[13u8; 32]);
    data[232..264].copy_from_slice(&[14u8; 32]);
    data
}

#[test]
fn resolvers_read_vaults_and_extras() {
    let pool = PubkeyBytes([1u8; 32]);
    let (user, src, dst) = (PubkeyBytes([6u8; 32]), PubkeyBytes([4u8; 32]), PubkeyBytes([5u8; 32]));
    let amm = resolve_raydium_amm(&amm_data(), pool, &user, &src, &dst).unwrap();
    assert_eq!(amm.token_a_vault, PubkeyBytes([13u8; 32]));
    assert_eq!(amm.token_b_vault, PubkeyBytes([14u8; 32]));
    assert_eq!(amm.extra_accounts.len(), 2);
    assert_eq!(amm.extra_accounts[0].pubkey, PubkeyBytes([11u8; 32]));
    assert!(amm.extra_accounts[1].is_writable && !amm.extra_accounts[1].is_signer);
    assert_eq!(
        resolve_raydium_amm(&[0u8; 263], pool, &user, &src, &dst).unwrap_err(),
        EngineError::AccountTooShort { len: 263, need: 264 }
    );
    assert_eq!(resolve_raydium_clmm(&[0u8; 285], pool, &user, &src, &dst).unwrap().extra_accounts.len(), 1);
    assert!(resolve_raydium_clmm(&[0u8; 284], pool, &user, &src, &dst).is_err());
    assert_eq!(resolve_whirlpool(&[0u8; 165], pool, &user, &src, &dst).unwrap().extra_accounts.len(), 0);
    assert!(resolve_whirlpool(&[0u8; 164], pool, &user, &src, &dst).is_err());
    assert_eq!(resolve_meteora_dlmm(&[0u8; 200], pool, &user, &src, &dst).unwrap().extra_accounts.len(), 1);
    assert!(resolve_meteora_dlmm(&[0u8; 199], pool, &user, &src, &dst).is_err());
}

#[test]
fn resolve_swap_accounts_uses_the_cache() {
    let mut pool = test_pool("SOL", "USDC");
    pool.address = "11111111111111111111111111111112".to_string();
    let address = parse_pool_address(&pool.address).unwrap();
    let (user, src, dst) = (PubkeyBytes([6u8; 32]), PubkeyBytes([4u8; 32]), PubkeyBytes([5u8; 32]));
    let mut cache = AccountCache::new();
    assert_eq!(
        resolve_swap_accounts(&pool, "SOL", &user, &src, &dst, &cache).unwrap_err(),
        EngineError::PoolAccountNotCached
    );
    cache.insert(address, vec![0u8; 10]);
    cache.insert(address, amm_data());
    assert_eq!(cache.get(&address).unwrap().len(), 264);
    let resolved = resolve_swap_accounts(&pool, "SOL", &user, &src, &dst, &cache).unwrap();
    assert_eq!(resolved.pool_state, address);
    assert_eq!(resolved.token_a_vault, PubkeyBytes([13u8; 32]));
    assert_eq!(required_accounts_for_pool(&pool).unwrap(), vec![address]);
    pool.address = "not base58!".to_string();
    assert!(matches!(
        resolve_swap_accounts(&pool, "SOL", &user, &src, &dst, &cache),
        Err(EngineError::InvalidPoolAddress(_))
    ));
}
