//! The Raydium CLMM swap the cross-swap program sends.

use vstd::prelude::*;
use crate::engine::instruction_builder::{bool_byte, le_bytes, push_le, AccountMetaBytes, SwapInstruction};
use crate::pool::PubkeyBytes;

verus! {

/// The Raydium CLMM program's `swap` selector.
pub const RAYDIUM_CLMM_SWAP_SELECTOR: [u8; 8] = [248, 198, 158, 145, 225, 117, 135, 200];

/// The arguments of a Raydium CLMM `swap`.
#[derive(Debug, Clone, Copy)]
pub struct RaydiumClmmSwapArgs {
    pub amount: u64,
    pub other_amount_threshold: u64,
    pub sqrt_price_limit_x64: u128,
    pub is_base_input: bool,
}

/// The accounts of a Raydium CLMM swap, by key, and the tick arrays the
/// swap may cross after the first, with how the caller passed them.
#[derive(Debug, Clone)]
pub struct RaydiumClmmSwap {
    pub raydium_clmm_program: PubkeyBytes,
    pub payer: PubkeyBytes,
    pub amm_config: PubkeyBytes,
    pub pool_state: PubkeyBytes,
    pub input_token_account: PubkeyBytes,
    pub output_token_account: PubkeyBytes,
    pub input_vault: PubkeyBytes,
    pub output_vault: PubkeyBytes,
    pub observation_state: PubkeyBytes,
    pub token_program: PubkeyBytes,
    pub tick_array: PubkeyBytes,
    pub remaining_accounts: Vec<AccountMetaBytes>,
}

/// The Borsh encoding of `args`.
pub open spec fn clmm_args_bytes(args: RaydiumClmmSwapArgs) -> Seq<u8> {
    le_bytes(args.amount as nat, 8) + le_bytes(args.other_amount_threshold as nat, 8)
        + le_bytes(args.sqrt_price_limit_x64 as nat, 16) + seq![bool_byte(args.is_base_input)]
}

/// The fixed accounts of the swap instruction, in the order the CLMM
/// program reads them; the remaining accounts follow.
pub open spec fn clmm_swap_metas(a: RaydiumClmmSwap) -> Seq<AccountMetaBytes> {
    seq![
        AccountMetaBytes { pubkey: a.payer, is_signer: true, is_writable: false },
        AccountMetaBytes { pubkey: a.amm_config, is_signer: false, is_writable: false },
        AccountMetaBytes { pubkey: a.pool_state, is_signer: false, is_writable: true },
        AccountMetaBytes { pubkey: a.input_token_account, is_signer: false, is_writable: true },
        AccountMetaBytes { pubkey: a.output_token_account, is_signer: false, is_writable: true },
        AccountMetaBytes { pubkey: a.input_vault, is_signer: false, is_writable: true },
        AccountMetaBytes { pubkey: a.output_vault, is_signer: false, is_writable: true },
        AccountMetaBytes { pubkey: a.observation_state, is_signer: false, is_writable: true },
        AccountMetaBytes { pubkey: a.token_program, is_signer: false, is_writable: false },
        AccountMetaBytes { pubkey: a.tick_array, is_signer: false, is_writable: true },
    ]
}

/// The account entry of an account the caller passed: writable when it
/// was passed writable, signing when it signed.
pub fn account_meta_from_info(pubkey: PubkeyBytes, is_signer: bool, is_writable: bool) -> (r: AccountMetaBytes)
    ensures
        r == (AccountMetaBytes { pubkey, is_signer, is_writable }),
{
    if is_writable {
        AccountMetaBytes::writable(pubkey, is_signer)
    } else {
        AccountMetaBytes::readonly(pubkey, is_signer)
    }
}

/// The Raydium CLMM `swap` instruction with the given arguments.
pub fn execute_swap(
    accounts: &RaydiumClmmSwap,
    amount: u64,
    other_amount_threshold: u64,
    sqrt_price_limit_x64: u128,
    is_base_input: bool,
) -> (r: SwapInstruction)
    ensures
        r.program_id == accounts.raydium_clmm_program,
        r.accounts@ == clmm_swap_metas(*accounts) + accounts.remaining_accounts@,
        r.data@ == RAYDIUM_CLMM_SWAP_SELECTOR@ + clmm_args_bytes(RaydiumClmmSwapArgs {
            amount,
            other_amount_threshold,
            sqrt_price_limit_x64,
            is_base_input,
        }),
{
    let args = RaydiumClmmSwapArgs { amount, other_amount_threshold, sqrt_price_limit_x64, is_base_input };
    let mut data: Vec<u8> = Vec::new();
    let mut i: usize = 0;
    while i < 8
        invariant
            i <= 8,
            data@ == RAYDIUM_CLMM_SWAP_SELECTOR@.subrange(0, i as int),
        decreases 8 - i,
    {
        data.push(RAYDIUM_CLMM_SWAP_SELECTOR[i]);
        proof {
            assert(RAYDIUM_CLMM_SWAP_SELECTOR@.subrange(0, i + 1)
                =~= RAYDIUM_CLMM_SWAP_SELECTOR@.subrange(0, i as int).push(RAYDIUM_CLMM_SWAP_SELECTOR@[i as int]));
        }
        i = i + 1;
    }
    let ghost head = data@;
    push_le(&mut data, args.amount as u128, 8);
    push_le(&mut data, args.other_amount_threshold as u128, 8);
    push_le(&mut data, args.sqrt_price_limit_x64, 16);
    data.push(if args.is_base_input { 1u8 } else { 0u8 });
    proof {
        assert(RAYDIUM_CLMM_SWAP_SELECTOR@.subrange(0, 8) =~= RAYDIUM_CLMM_SWAP_SELECTOR@);
        assert(data@ =~= RAYDIUM_CLMM_SWAP_SELECTOR@ + clmm_args_bytes(args));
    }
    let a = accounts;
    let mut metas: Vec<AccountMetaBytes> = Vec::new();
    metas.push(AccountMetaBytes::readonly(a.payer, true));
    metas.push(AccountMetaBytes::readonly(a.amm_config, false));
    metas.push(AccountMetaBytes::writable(a.pool_state, false));
    metas.push(AccountMetaBytes::writable(a.input_token_account, false));
    metas.push(AccountMetaBytes::writable(a.output_token_account, false));
    metas.push(AccountMetaBytes::writable(a.input_vault, false));
    metas.push(AccountMetaBytes::writable(a.output_vault, false));
    metas.push(AccountMetaBytes::writable(a.observation_state, false));
    metas.push(AccountMetaBytes::readonly(a.token_program, false));
    metas.push(AccountMetaBytes::writable(a.tick_array, false));
    let ghost fixed = metas@;
    proof {
        assert(fixed =~= clmm_swap_metas(*accounts));
    }
    let mut k: usize = 0;
    while k < a.remaining_accounts.len()
        invariant
            k <= a.remaining_accounts@.len(),
            metas@ == fixed + a.remaining_accounts@.subrange(0, k as int),
        decreases a.remaining_accounts@.len() - k,
    {
        let m = a.remaining_accounts[k];
        metas.push(account_meta_from_info(m.pubkey, m.is_signer, m.is_writable));
        proof {
            assert(a.remaining_accounts@.subrange(0, k + 1)
                =~= a.remaining_accounts@.subrange(0, k as int).push(a.remaining_accounts@[k as int]));
        }
        k = k + 1;
    }
    proof {
        assert(a.remaining_accounts@.subrange(0, k as int) =~= a.remaining_accounts@);
    }
    SwapInstruction { program_id: accounts.raydium_clmm_program, accounts: metas, data }
}

} // verus!
