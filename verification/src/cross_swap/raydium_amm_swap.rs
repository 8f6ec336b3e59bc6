//! The Raydium AMM swap the cross-swap program sends.

use vstd::prelude::*;
use crate::engine::instruction_builder::{push_le, raydium_amm_data, AccountMetaBytes, SwapInstruction};
use crate::pool::PubkeyBytes;

verus! {

/// The accounts of a Raydium AMM swap (`swapBaseIn`), by key.
#[derive(Debug, Clone, Copy)]
pub struct RaydiumAmmSwap {
    pub raydium_program: PubkeyBytes,
    pub token_program: PubkeyBytes,
    pub amm: PubkeyBytes,
    pub amm_authority: PubkeyBytes,
    pub amm_open_orders: PubkeyBytes,
    pub amm_target_orders: PubkeyBytes,
    pub pool_coin_token_account: PubkeyBytes,
    pub pool_pc_token_account: PubkeyBytes,
    pub serum_program: PubkeyBytes,
    pub serum_market: PubkeyBytes,
    pub serum_bids: PubkeyBytes,
    pub serum_asks: PubkeyBytes,
    pub serum_event_queue: PubkeyBytes,
    pub serum_coin_vault_account: PubkeyBytes,
    pub serum_pc_vault_account: PubkeyBytes,
    pub serum_vault_signer: PubkeyBytes,
    pub user_source_token_account: PubkeyBytes,
    pub user_destination_token_account: PubkeyBytes,
    pub user_source_owner: PubkeyBytes,
}

/// A writable account that does not sign.
pub open spec fn writable_meta(k: PubkeyBytes) -> AccountMetaBytes {
    AccountMetaBytes { pubkey: k, is_signer: false, is_writable: true }
}

/// A read-only account.
pub open spec fn readonly_meta(k: PubkeyBytes, signer: bool) -> AccountMetaBytes {
    AccountMetaBytes { pubkey: k, is_signer: signer, is_writable: false }
}

/// The accounts of the swap instruction, in the order the AMM program reads them.
pub open spec fn amm_swap_metas(a: RaydiumAmmSwap) -> Seq<AccountMetaBytes> {
    seq![
        readonly_meta(a.token_program, false), writable_meta(a.amm), readonly_meta(a.amm_authority, false), writable_meta(a.amm_open_orders),
        writable_meta(a.amm_target_orders), writable_meta(a.pool_coin_token_account), writable_meta(a.pool_pc_token_account),
        readonly_meta(a.serum_program, false), writable_meta(a.serum_market), writable_meta(a.serum_bids), writable_meta(a.serum_asks),
        writable_meta(a.serum_event_queue), writable_meta(a.serum_coin_vault_account), writable_meta(a.serum_pc_vault_account),
        readonly_meta(a.serum_vault_signer, false), writable_meta(a.user_source_token_account), writable_meta(a.user_destination_token_account),
        readonly_meta(a.user_source_owner, true),
    ]
}

/// The Raydium AMM `swapBaseIn` instruction for `amount_in` with at least
/// `minimum_amount_out` out.
pub fn execute_swap(accounts: &RaydiumAmmSwap, amount_in: u64, minimum_amount_out: u64) -> (r: SwapInstruction)
    ensures
        r.program_id == accounts.raydium_program,
        r.accounts@ == amm_swap_metas(*accounts),
        r.data@ == raydium_amm_data(amount_in, minimum_amount_out),
{
    let mut data: Vec<u8> = Vec::new();
    data.push(9u8);
    push_le(&mut data, amount_in as u128, 8);
    push_le(&mut data, minimum_amount_out as u128, 8);
    proof {
        assert(data@ =~= raydium_amm_data(amount_in, minimum_amount_out));
    }
    let a = accounts;
    let mut metas: Vec<AccountMetaBytes> = Vec::new();
    metas.push(AccountMetaBytes::readonly(a.token_program, false));
    metas.push(AccountMetaBytes::writable(a.amm, false));
    metas.push(AccountMetaBytes::readonly(a.amm_authority, false));
    metas.push(AccountMetaBytes::writable(a.amm_open_orders, false));
    metas.push(AccountMetaBytes::writable(a.amm_target_orders, false));
    metas.push(AccountMetaBytes::writable(a.pool_coin_token_account, false));
    metas.push(AccountMetaBytes::writable(a.pool_pc_token_account, false));
    metas.push(AccountMetaBytes::readonly(a.serum_program, false));
    metas.push(AccountMetaBytes::writable(a.serum_market, false));
    metas.push(AccountMetaBytes::writable(a.serum_bids, false));
    metas.push(AccountMetaBytes::writable(a.serum_asks, false));
    metas.push(AccountMetaBytes::writable(a.serum_event_queue, false));
    metas.push(AccountMetaBytes::writable(a.serum_coin_vault_account, false));
    metas.push(AccountMetaBytes::writable(a.serum_pc_vault_account, false));
    metas.push(AccountMetaBytes::readonly(a.serum_vault_signer, false));
    metas.push(AccountMetaBytes::writable(a.user_source_token_account, false));
    metas.push(AccountMetaBytes::writable(a.user_destination_token_account, false));
    metas.push(AccountMetaBytes::readonly(a.user_source_owner, true));
    proof {
        assert(metas@ =~= amm_swap_metas(*accounts));
    }
    SwapInstruction { program_id: accounts.raydium_program, accounts: metas, data }
}

} // verus!
