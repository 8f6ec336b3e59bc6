use swexa::cross_swap::raydium_amm_swap::{execute_swap as amm_swap, RaydiumAmmSwap};
use swexa::cross_swap::raydium_clmm_swap::{execute_swap as clmm_swap, RaydiumClmmSwap, RAYDIUM_CLMM_SWAP_SELECTOR};
use swexa::cross_swap::whirlpool::{
    execute_whirlpool_swap, swap, CpiError, ExecuteWhirlpoolSwap, WhirlpoolAccounts, SWAP_SELECTOR,
};
use swexa::engine::instruction_builder::AccountMetaBytes;
use swexa::pool::PubkeyBytes;

fn key(b: u8) -> PubkeyBytes {
    PubkeyBytes([b; 32])
}

fn whirlpool_accounts() -> WhirlpoolAccounts {
    WhirlpoolAccounts {
        whirlpool_program: key(1),
        token_program: key(2),
        token_authority: key(3),
        whirlpool: key(4),
        token_owner_account_a: key(5),
        token_vault_a: key(6),
        token_owner_account_b: key(7),
        token_vault_b: key(8),
        tick_array0: key(9),
        tick_array1: key(10),
        tick_array2: key(11),
        oracle: key(12),
    }
}

#[test]
fn whirlpool_swap_direction_follows_the_mints() {
    let a = key(20);
    let b = key(21);
    let ix = swap(&whirlpool_accounts(), &a, &b, &a, &b, 1_000).unwrap();
    assert_eq!(ix.program_id, key(1));
    assert_eq!(ix.accounts.len(), 11);
    assert!(ix.accounts[1].is_signer && !ix.accounts[1].is_writable);
    assert!(!ix.accounts[10].is_writable);
    assert_eq!(&ix.data[..8], &SWAP_SELECTOR);
    assert_eq!(ix.data.len(), 8 + 8 + 8 + 16 + 2);
    assert_eq!(&ix.data[8..16], &1_000u64.to_le_bytes());
    assert_eq!(&ix.data[16..24], &1u64.to_le_bytes());
    assert_eq!(&ix.data[24..40], &4295048016u128.to_le_bytes());
    assert_eq!(&ix.data[40..], &[1, 1]);

    let back = swap(&whirlpool_accounts(), &b, &a, &a, &b, 7).unwrap();
    assert_eq!(&back.data[24..40], &79226673515401279992447579055u128.to_le_bytes());
    assert_eq!(back.data[41], 0);

    let c = key(22);
    assert_eq!(swap(&whirlpool_accounts(), &a, &c, &a, &b, 7).unwrap_err(), CpiError::InvalidInstructionData);
}

#[test]
fn cross_swap_amm_data_is_17_bytes() {
    let accounts = RaydiumAmmSwap {
        raydium_program: key(1),
        token_program: key(2),
        amm: key(3),
        amm_authority: key(4),
        amm_open_orders: key(5),
        amm_target_orders: key(6),
        pool_coin_token_account: key(7),
        pool_pc_token_account: key(8),
        serum_program: key(9),
        serum_market: key(10),
        serum_bids: key(11),
        serum_asks: key(12),
        serum_event_queue: key(13),
        serum_coin_vault_account: key(14),
        serum_pc_vault_account: key(15),
        serum_vault_signer: key(16),
        user_source_token_account: key(17),
        user_destination_token_account: key(18),
        user_source_owner: key(19),
    };
    let ix = amm_swap(&accounts, 500, 450);
    assert_eq!(ix.data.len(), 17);
    assert_eq!(ix.data[0], 9);
    assert_eq!(&ix.data[1..9], &500u64.to_le_bytes());
    assert_eq!(&ix.data[9..17], &450u64.to_le_bytes());
    assert_eq!(ix.accounts.len(), 18);
    assert!(ix.accounts[17].is_signer);
}

#[test]
fn raydium_clmm_swap_appends_the_remaining_accounts() {
    let extra = AccountMetaBytes { pubkey: key(40), is_signer: false, is_writable: true };
    let accounts = RaydiumClmmSwap {
        raydium_clmm_program: key(1),
        payer: key(2),
        amm_config: key(3),
        pool_state: key(4),
        input_token_account: key(5),
        output_token_account: key(6),
        input_vault: key(7),
        output_vault: key(8),
        observation_state: key(9),
        token_program: key(10),
        tick_array: key(11),
        remaining_accounts: vec![extra],
    };
    let ix = clmm_swap(&accounts, 1_000, 900, 0, true);
    assert_eq!(ix.data.len(), 41);
    assert_eq!(&ix.data[..8], &RAYDIUM_CLMM_SWAP_SELECTOR);
    assert_eq!(ix.data[40], 1);
    assert_eq!(ix.accounts.len(), 11);
    assert_eq!(ix.accounts[10], extra);
    assert!(ix.accounts[0].is_signer);
}

#[test]
fn whirlpool_entry_point_passes_its_mints() {
    let ctx = ExecuteWhirlpoolSwap {
        accounts: whirlpool_accounts(),
        swap_source_mint: key(21),
        swap_destination_mint: key(20),
        token_vault_a_mint: key(20),
        token_vault_b_mint: key(21),
    };
    let ix = execute_whirlpool_swap(&ctx, 5).unwrap();
    assert_eq!(ix.data[41], 0);
    assert_eq!(&ix.data[8..16], &5u64.to_le_bytes());
}
