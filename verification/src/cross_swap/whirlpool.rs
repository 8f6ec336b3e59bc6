//! The Whirlpool swap the cross-swap program sends.

use vstd::prelude::*;
use crate::engine::instruction_builder::{
    bool_byte, le_bytes, push_le, AccountMetaBytes, SwapInstruction, ANCHOR_SWAP_DISCRIMINATOR,
    WHIRLPOOL_MAX_SQRT_PRICE, WHIRLPOOL_MIN_SQRT_PRICE,
};
use crate::pool::PubkeyBytes;

verus! {

/// The Whirlpool program's `swap` selector.
pub const SWAP_SELECTOR: [u8; 8] = [248, 198, 158, 145, 225, 117, 135, 200];

/// The accounts of a Whirlpool swap, by key.
#[derive(Debug, Clone, Copy)]
pub struct WhirlpoolAccounts {
    pub whirlpool_program: PubkeyBytes,
    pub token_program: PubkeyBytes,
    pub token_authority: PubkeyBytes,
    pub whirlpool: PubkeyBytes,
    pub token_owner_account_a: PubkeyBytes,
    pub token_vault_a: PubkeyBytes,
    pub token_owner_account_b: PubkeyBytes,
    pub token_vault_b: PubkeyBytes,
    pub tick_array0: PubkeyBytes,
    pub tick_array1: PubkeyBytes,
    pub tick_array2: PubkeyBytes,
    pub oracle: PubkeyBytes,
}

/// The arguments of a Whirlpool `swap`.
#[derive(Debug, Clone, Copy)]
pub struct SwapArgs {
    pub amount: u64,
    pub other_amount_threshold: u64,
    pub sqrt_price_limit: u128,
    pub amount_specified_is_input: bool,
    pub a_to_b: bool,
}

/// Why the program refuses a swap.
#[derive(Debug, Clone, Copy, PartialEq, Eq, Structural)]
pub enum CpiError {
    /// The source and destination mints are not the pool's two mints.
    InvalidInstructionData,
}

/// The Borsh encoding of `args`: the integers little-endian, the flags one
/// byte each.
pub open spec fn swap_args_bytes(args: SwapArgs) -> Seq<u8> {
    le_bytes(args.amount as nat, 8) + le_bytes(args.other_amount_threshold as nat, 8)
        + le_bytes(args.sqrt_price_limit as nat, 16) + seq![bool_byte(args.amount_specified_is_input),
        bool_byte(args.a_to_b)]
}

/// Appends the Borsh encoding of `args` to `out`.
pub fn serialize_swap_args(args: &SwapArgs, out: &mut Vec<u8>)
    ensures
        final(out)@ == old(out)@ + swap_args_bytes(*args),
{
    let ghost start = out@;
    push_le(out, args.amount as u128, 8);
    push_le(out, args.other_amount_threshold as u128, 8);
    push_le(out, args.sqrt_price_limit, 16);
    out.push(if args.amount_specified_is_input { 1u8 } else { 0u8 });
    out.push(if args.a_to_b { 1u8 } else { 0u8 });
    proof {
        assert(out@ =~= start + swap_args_bytes(*args));
    }
}

/// The direction of a swap from `source` to `destination` in a pool whose
/// vaults hold `vault_a_mint` and `vault_b_mint`: a to b, b to a, or none.
pub open spec fn swap_direction(source: PubkeyBytes, destination: PubkeyBytes, vault_a_mint: PubkeyBytes,
    vault_b_mint: PubkeyBytes) -> Option<bool> {
    if source == vault_a_mint && destination == vault_b_mint {
        Some(true)
    } else if source == vault_b_mint && destination == vault_a_mint {
        Some(false)
    } else {
        None
    }
}

/// The accounts of the swap instruction, in the order the Whirlpool
/// program reads them.
pub open spec fn swap_metas(a: WhirlpoolAccounts) -> Seq<AccountMetaBytes> {
    seq![
        AccountMetaBytes { pubkey: a.token_program, is_signer: false, is_writable: false },
        AccountMetaBytes { pubkey: a.token_authority, is_signer: true, is_writable: false },
        AccountMetaBytes { pubkey: a.whirlpool, is_signer: false, is_writable: true },
        AccountMetaBytes { pubkey: a.token_owner_account_a, is_signer: false, is_writable: true },
        AccountMetaBytes { pubkey: a.token_vault_a, is_signer: false, is_writable: true },
        AccountMetaBytes { pubkey: a.token_owner_account_b, is_signer: false, is_writable: true },
        AccountMetaBytes { pubkey: a.token_vault_b, is_signer: false, is_writable: true },
        AccountMetaBytes { pubkey: a.tick_array0, is_signer: false, is_writable: true },
        AccountMetaBytes { pubkey: a.tick_array1, is_signer: false, is_writable: true },
        AccountMetaBytes { pubkey: a.tick_array2, is_signer: false, is_writable: true },
        AccountMetaBytes { pubkey: a.oracle, is_signer: false, is_writable: false },
    ]
}

fn same_mint(a: &PubkeyBytes, b: &PubkeyBytes) -> (r: bool)
    ensures
        r == (*a == *b),
{
    let r = *a == *b;
    proof {
        if r {
            assert(a.0 =~= b.0);
        }
    }
    r
}

/// The Whirlpool `swap` instruction for sending `amount_in` of
/// `swap_source_mint` to get `swap_destination_mint`: exact input, at least
/// one unit out, the price limit at the far end of the direction. Refused
/// when the two mints are not the pool's.
pub fn swap(
    accounts: &WhirlpoolAccounts,
    swap_source_mint: &PubkeyBytes,
    swap_destination_mint: &PubkeyBytes,
    vault_a_mint: &PubkeyBytes,
    vault_b_mint: &PubkeyBytes,
    amount_in: u64,
) -> (r: Result<SwapInstruction, CpiError>)
    ensures
        match swap_direction(*swap_source_mint, *swap_destination_mint, *vault_a_mint, *vault_b_mint) {
            None => r == Err::<SwapInstruction, CpiError>(CpiError::InvalidInstructionData),
            Some(a_to_b) => r matches Ok(ix) && {
                &&& ix.program_id == accounts.whirlpool_program
                &&& ix.accounts@ == swap_metas(*accounts)
                &&& ix.data@ == SWAP_SELECTOR@ + swap_args_bytes(SwapArgs {
                    amount: amount_in,
                    other_amount_threshold: 1,
                    sqrt_price_limit: if a_to_b { WHIRLPOOL_MIN_SQRT_PRICE } else { WHIRLPOOL_MAX_SQRT_PRICE },
                    amount_specified_is_input: true,
                    a_to_b,
                })
            },
        },
{
    let a_to_b = if same_mint(swap_source_mint, vault_a_mint) && same_mint(swap_destination_mint, vault_b_mint) {
        true
    } else if same_mint(swap_source_mint, vault_b_mint) && same_mint(swap_destination_mint, vault_a_mint) {
        false
    } else {
        return Err(CpiError::InvalidInstructionData);
    };
    let sqrt_price_limit: u128 = if a_to_b { WHIRLPOOL_MIN_SQRT_PRICE } else { WHIRLPOOL_MAX_SQRT_PRICE };
    let args = SwapArgs {
        amount: amount_in,
        other_amount_threshold: 1,
        sqrt_price_limit,
        amount_specified_is_input: true,
        a_to_b,
    };
    let mut data: Vec<u8> = Vec::new();
    let mut i: usize = 0;
    while i < 8
        invariant
            i <= 8,
            data@ == SWAP_SELECTOR@.subrange(0, i as int),
        decreases 8 - i,
    {
        data.push(SWAP_SELECTOR[i]);
        proof {
            assert(SWAP_SELECTOR@.subrange(0, i + 1) =~= SWAP_SELECTOR@.subrange(0, i as int).push(SWAP_SELECTOR@[i as int]));
        }
        i = i + 1;
    }
    proof {
        assert(SWAP_SELECTOR@.subrange(0, 8) =~= SWAP_SELECTOR@);
    }
    serialize_swap_args(&args, &mut data);
    let mut metas: Vec<AccountMetaBytes> = Vec::new();
    metas.push(AccountMetaBytes::readonly(accounts.token_program, false));
    metas.push(AccountMetaBytes::readonly(accounts.token_authority, true));
    metas.push(AccountMetaBytes::writable(accounts.whirlpool, false));
    metas.push(AccountMetaBytes::writable(accounts.token_owner_account_a, false));
    metas.push(AccountMetaBytes::writable(accounts.token_vault_a, false));
    metas.push(AccountMetaBytes::writable(accounts.token_owner_account_b, false));
    metas.push(AccountMetaBytes::writable(accounts.token_vault_b, false));
    metas.push(AccountMetaBytes::writable(accounts.tick_array0, false));
    metas.push(AccountMetaBytes::writable(accounts.tick_array1, false));
    metas.push(AccountMetaBytes::writable(accounts.tick_array2, false));
    metas.push(AccountMetaBytes::readonly(accounts.oracle, false));
    proof {
        assert(metas@ =~= swap_metas(*accounts));
    }
    Ok(SwapInstruction { program_id: accounts.whirlpool_program, accounts: metas, data })
}

/// The accounts of the program's Whirlpool swap entry point, by key: the
/// swap's accounts and the four mints that fix its direction.
#[derive(Debug, Clone, Copy)]
pub struct ExecuteWhirlpoolSwap {
    pub accounts: WhirlpoolAccounts,
    pub swap_source_mint: PubkeyBytes,
    pub swap_destination_mint: PubkeyBytes,
    pub token_vault_a_mint: PubkeyBytes,
    pub token_vault_b_mint: PubkeyBytes,
}

/// The instruction the entry point sends: `swap` with the given accounts and mints.
pub fn execute_whirlpool_swap(ctx: &ExecuteWhirlpoolSwap, amount_in: u64) -> (r: Result<SwapInstruction, CpiError>)
    ensures
        match swap_direction(ctx.swap_source_mint, ctx.swap_destination_mint, ctx.token_vault_a_mint,
            ctx.token_vault_b_mint) {
            None => r == Err::<SwapInstruction, CpiError>(CpiError::InvalidInstructionData),
            Some(a_to_b) => r matches Ok(ix) && {
                &&& ix.program_id == ctx.accounts.whirlpool_program
                &&& ix.accounts@ == swap_metas(ctx.accounts)
                &&& ix.data@ == SWAP_SELECTOR@ + swap_args_bytes(SwapArgs {
                    amount: amount_in,
                    other_amount_threshold: 1,
                    sqrt_price_limit: if a_to_b { WHIRLPOOL_MIN_SQRT_PRICE } else { WHIRLPOOL_MAX_SQRT_PRICE },
                    amount_specified_is_input: true,
                    a_to_b,
                })
            },
        },
{
    swap(&ctx.accounts, &ctx.swap_source_mint, &ctx.swap_destination_mint, &ctx.token_vault_a_mint,
        &ctx.token_vault_b_mint, amount_in)
}

} // verus!
