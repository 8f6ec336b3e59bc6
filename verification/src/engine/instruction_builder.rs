use vstd::prelude::*;
use vstd::arithmetic::div_mod::lemma_div_denominator;
use vstd::arithmetic::mul::lemma_mul_is_commutative;
use vstd::string::StringSliceAdditionalSpecFns;
use crate::base58::{
    all_digits, is_decoding_of, parse_address, pow256, lemma_decoding_unique, AddressError,
};
use crate::error::EngineError;
use crate::pool::PubkeyBytes;
use crate::types::{DexProtocol, PoolEdge, PoolType};

verus! {

/// Raydium AMM V4 program.
pub const RAYDIUM_AMM_PROGRAM_ID: &'static str = "675kPX9MHTjS2zt1qfr1NYHuzeLXfQM9H24wFSUt1Mp8";
/// Raydium concentrated-liquidity program.
pub const RAYDIUM_CLMM_PROGRAM_ID: &'static str = "CAMMCzo5YL8w4VFF8KVHrK22GGUsp5VTaW7grrKgrWqK";
/// Orca Whirlpool program.
pub const WHIRLPOOL_PROGRAM_ID: &'static str = "whirLbMiicVdio4qvUfM5KAg6Ct5wRPh2YpFb4fo";
/// Meteora DLMM program.
pub const METEORA_DLMM_PROGRAM_ID: &'static str = "LBUZKhRxPF3XUpBCjp4YzTKgLccjZhTSDM9YuVaPwxo";
/// SPL Token program.
pub const TOKEN_PROGRAM_ID: &'static str = "TokenkegQfeZyiNwAJbNbGKPFXCWuBvf9Ss623VQ5DA";

/// Anchor discriminator of `swap` shared by the Raydium CLMM and Meteora DLMM programs.
pub const ANCHOR_SWAP_DISCRIMINATOR: [u8; 8] = [248, 198, 158, 145, 225, 117, 135, 200];
/// Anchor discriminator of the Whirlpool `swap` instruction.
pub const WHIRLPOOL_SWAP_DISCRIMINATOR: [u8; 8] = [43, 4, 237, 11, 26, 201, 30, 190];
/// Whirlpool sqrt-price limit meaning "no limit" for an a-to-b swap.
pub const WHIRLPOOL_MIN_SQRT_PRICE: u128 = 4295048016;
/// Whirlpool sqrt-price limit meaning "no limit" for a b-to-a swap.
pub const WHIRLPOOL_MAX_SQRT_PRICE: u128 = 79226673515401279992447579055;

/// Direction of a swap relative to the pool's token_a / token_b ordering.
#[derive(Debug, Clone, Copy, PartialEq, Eq, Structural)]
pub enum SwapDirection {
    AtoB,
    BtoA,
}

/// One account of an instruction: its key and how the instruction uses it.
#[derive(Debug, Clone, Copy, PartialEq, Eq)]
pub struct AccountMetaBytes {
    pub pubkey: PubkeyBytes,
    pub is_signer: bool,
    pub is_writable: bool,
}

impl AccountMetaBytes {
    /// A writable account.
    pub fn writable(pubkey: PubkeyBytes, is_signer: bool) -> (r: Self)
        ensures
            r == (AccountMetaBytes { pubkey, is_signer, is_writable: true }),
    {
        AccountMetaBytes { pubkey, is_signer, is_writable: true }
    }

    /// A read-only account.
    pub fn readonly(pubkey: PubkeyBytes, is_signer: bool) -> (r: Self)
        ensures
            r == (AccountMetaBytes { pubkey, is_signer, is_writable: false }),
    {
        AccountMetaBytes { pubkey, is_signer, is_writable: false }
    }
}

/// The on-chain accounts one swap hop touches.
#[derive(Debug, Clone)]
pub struct SwapAccounts {
    pub pool_state: PubkeyBytes,
    pub token_a_vault: PubkeyBytes,
    pub token_b_vault: PubkeyBytes,
    pub user_source_token_account: PubkeyBytes,
    pub user_destination_token_account: PubkeyBytes,
    pub user_authority: PubkeyBytes,
    /// DEX-specific accounts appended after the common ones, in order.
    pub extra_accounts: Vec<AccountMetaBytes>,
}

/// A program instruction: program, accounts and data bytes.
#[derive(Debug, Clone)]
pub struct SwapInstruction {
    pub program_id: PubkeyBytes,
    pub accounts: Vec<AccountMetaBytes>,
    pub data: Vec<u8>,
}

/// The `n` low bytes of `x`, least significant first.
pub open spec fn le_bytes(x: nat, n: nat) -> Seq<u8> {
    Seq::new(n, |i: int| ((x / pow256(i as nat)) % 256) as u8)
}

/// Whether `s` is a base58 string that decodes to a 32-byte address.
pub open spec fn is_address(s: Seq<u8>) -> bool {
    all_digits(s) && exists|out: Seq<u8>| out.len() == 32 && is_decoding_of(s, out)
}

/// The 32 bytes that the base58 address `s` decodes to (meaningful when `is_address(s)`).
pub open spec fn address_bytes(s: Seq<u8>) -> Seq<u8> {
    choose|out: Seq<u8>| out.len() == 32 && is_decoding_of(s, out)
}

/// Whether `m` is the account `key` with the given roles.
pub open spec fn meta_is(m: AccountMetaBytes, key: Seq<u8>, signer: bool, writable: bool) -> bool {
    m.pubkey.bytes() == key && m.is_signer == signer && m.is_writable == writable
}

/// Whether `metas` are the `fixed` accounts (key, signer, writable) followed by `extra`.
pub open spec fn metas_are(
    metas: Seq<AccountMetaBytes>,
    fixed: Seq<(Seq<u8>, bool, bool)>,
    extra: Seq<AccountMetaBytes>,
) -> bool {
    &&& metas.len() == fixed.len() + extra.len()
    &&& forall|i: int| 0 <= i < fixed.len() ==> #[trigger] meta_is(metas[i], fixed[i].0, fixed[i].1, fixed[i].2)
    &&& metas.subrange(fixed.len() as int, metas.len() as int) == extra
}

/// The pool vaults in swap order: the one the input is paid into, then the
/// one the output is paid from.
pub open spec fn vaults_in_order(accounts: SwapAccounts, direction: SwapDirection) -> (Seq<u8>, Seq<u8>) {
    match direction {
        SwapDirection::AtoB => (accounts.token_a_vault.bytes(), accounts.token_b_vault.bytes()),
        SwapDirection::BtoA => (accounts.token_b_vault.bytes(), accounts.token_a_vault.bytes()),
    }
}

pub open spec fn bool_byte(b: bool) -> u8 {
    if b { 1 } else { 0 }
}

/// Raydium AMM V4 `swap` data: tag 9, amount in, minimum amount out.
pub open spec fn raydium_amm_data(amount_in: u64, minimum_amount_out: u64) -> Seq<u8> {
    seq![9u8] + le_bytes(amount_in as nat, 8) + le_bytes(minimum_amount_out as nat, 8)
}

/// Raydium CLMM `swap` data: discriminator, amount, threshold, no price limit, a-to-b flag.
pub open spec fn raydium_clmm_data(amount_in: u64, minimum_amount_out: u64, a_to_b: bool) -> Seq<u8> {
    ANCHOR_SWAP_DISCRIMINATOR@ + le_bytes(amount_in as nat, 8) + le_bytes(minimum_amount_out as nat, 8)
        + le_bytes(0, 16) + seq![bool_byte(a_to_b)]
}

/// Whirlpool `swap` data: discriminator, amount, threshold, sqrt-price limit,
/// amount-is-input flag (always set), a-to-b flag.
pub open spec fn whirlpool_data(amount_in: u64, minimum_amount_out: u64, a_to_b: bool) -> Seq<u8> {
    let limit = if a_to_b { WHIRLPOOL_MIN_SQRT_PRICE } else { WHIRLPOOL_MAX_SQRT_PRICE };
    WHIRLPOOL_SWAP_DISCRIMINATOR@ + le_bytes(amount_in as nat, 8) + le_bytes(minimum_amount_out as nat, 8)
        + le_bytes(limit as nat, 16) + seq![1u8, bool_byte(a_to_b)]
}

/// Meteora DLMM `swap` data: discriminator, amount in, minimum out, a-to-b flag.
pub open spec fn meteora_dlmm_data(amount_in: u64, minimum_amount_out: u64, a_to_b: bool) -> Seq<u8> {
    ANCHOR_SWAP_DISCRIMINATOR@ + le_bytes(amount_in as nat, 8) + le_bytes(minimum_amount_out as nat, 8)
        + seq![bool_byte(a_to_b)]
}

proof fn lemma_pow256_pos(k: nat)
    ensures
        pow256(k) > 0,
    decreases k,
{
    if k > 0 {
        lemma_pow256_pos((k - 1) as nat);
    }
}

/// Appends the `width` low bytes of `x`, least significant first.
pub(crate) fn push_le(out: &mut Vec<u8>, x: u128, width: usize)
    ensures
        final(out)@ == old(out)@ + le_bytes(x as nat, width as nat),
{
    let ghost start = out@;
    let mut y: u128 = x;
    let mut k: usize = 0;
    proof {
        assert(start + le_bytes(x as nat, 0) =~= start);
        assert(pow256(0) == 1);
    }
    while k < width
        invariant
            k <= width,
            y == x as nat / pow256(k as nat),
            out@ == start + le_bytes(x as nat, k as nat),
        decreases width - k,
    {
        let b = (y % 256) as u8;
        out.push(b);
        proof {
            lemma_pow256_pos(k as nat);
            lemma_div_denominator(x as int, pow256(k as nat) as int, 256);
            lemma_mul_is_commutative(pow256(k as nat) as int, 256);
            assert(pow256((k + 1) as nat) == 256 * pow256(k as nat));
            assert(le_bytes(x as nat, (k + 1) as nat) =~= le_bytes(x as nat, k as nat).push(b));
        }
        y = y / 256;
        k = k + 1;
    }
}

/// The base58 program address as bytes.
proof fn lemma_parse_result(s: Seq<u8>, r: Result<PubkeyBytes, AddressError>)
    requires
        match r {
            Ok(pk) => all_digits(s) && is_decoding_of(s, pk.bytes()),
            Err(AddressError::InvalidCharacter { byte }) => !all_digits(s),
            Err(AddressError::InvalidLength { len }) => all_digits(s)
                && len != 32 && exists|out: Seq<u8>| out.len() == len && is_decoding_of(s, out),
        },
    ensures
        r is Ok <==> is_address(s),
{
    match r {
        Ok(pk) => {
            assert(pk.bytes().len() == 32);
        },
        Err(AddressError::InvalidCharacter { .. }) => {},
        Err(AddressError::InvalidLength { len }) => {
            if is_address(s) {
                let a = choose|out: Seq<u8>| out.len() == 32 && is_decoding_of(s, out);
                let b = choose|out: Seq<u8>| out.len() == len && is_decoding_of(s, out);
                lemma_decoding_unique(s, a, b);
            }
        },
    }
}

/// Parses one of the program addresses above.
pub(crate) fn program_address(base58: &str) -> (r: Result<PubkeyBytes, EngineError>)
    ensures
        match r {
            Ok(pk) => pk.bytes() == address_bytes(base58.spec_bytes()),
            Err(e) => e == EngineError::InvalidProgramId,
        },
        r is Ok <==> is_address(base58.spec_bytes()),
{
    let parsed = parse_address(base58);
    proof {
        lemma_parse_result(base58.spec_bytes(), parsed);
        if let Ok(pk) = parsed {
            let s = base58.spec_bytes();
            assert(pk.bytes().len() == 32);
            let a = address_bytes(s);
            lemma_decoding_unique(s, a, pk.bytes());
        }
    }
    match parsed {
        Ok(pk) => Ok(pk),
        Err(_) => Err(EngineError::InvalidProgramId),
    }
}

/// Whether `ixs` is the single instruction of `program` with the given accounts and data.
pub open spec fn single_instruction(
    ixs: Seq<SwapInstruction>,
    program: Seq<u8>,
    fixed: Seq<(Seq<u8>, bool, bool)>,
    extra: Seq<AccountMetaBytes>,
    data: Seq<u8>,
) -> bool {
    &&& ixs.len() == 1
    &&& ixs[0].program_id.bytes() == address_bytes(program)
    &&& metas_are(ixs[0].accounts@, fixed, extra)
    &&& ixs[0].data@ == data
}

/// Common contract of the four swap builders: exactly one instruction when
/// both the DEX program and the token program addresses parse.
pub open spec fn builder_result(
    r: Result<Vec<SwapInstruction>, EngineError>,
    program: Seq<u8>,
    fixed: Seq<(Seq<u8>, bool, bool)>,
    extra: Seq<AccountMetaBytes>,
    data: Seq<u8>,
) -> bool {
    &&& r is Ok <==> is_address(program) && is_address(TOKEN_PROGRAM_ID.spec_bytes())
    &&& r matches Ok(ixs) ==> single_instruction(ixs@, program, fixed, extra, data)
    &&& r matches Err(e) ==> e == EngineError::InvalidProgramId
}

/// Appends `extra` to `metas`.
fn append_metas(metas: &mut Vec<AccountMetaBytes>, extra: &Vec<AccountMetaBytes>)
    ensures
        final(metas)@ == old(metas)@ + extra@,
{
    let ghost start = metas@;
    let mut i: usize = 0;
    while i < extra.len()
        invariant
            i <= extra@.len(),
            metas@ == start + extra@.subrange(0, i as int),
        decreases extra@.len() - i,
    {
        metas.push(extra[i]);
        proof {
            assert(extra@.subrange(0, i + 1) =~= extra@.subrange(0, i as int).push(extra@[i as int]));
        }
        i = i + 1;
    }
    proof {
        assert(extra@.subrange(0, extra@.len() as int) =~= extra@);
    }
}

/// Builds the instruction from its parts and checks the account layout.
fn assemble(
    program_id: PubkeyBytes,
    fixed: Vec<AccountMetaBytes>,
    extra: &Vec<AccountMetaBytes>,
    data: Vec<u8>,
) -> (r: Vec<SwapInstruction>)
    ensures
        r@.len() == 1,
        r@[0].program_id == program_id,
        r@[0].accounts@ == fixed@ + extra@,
        r@[0].data@ == data@,
{
    let mut metas = fixed;
    append_metas(&mut metas, extra);
    let mut out: Vec<SwapInstruction> = Vec::new();
    out.push(SwapInstruction { program_id, accounts: metas, data });
    out
}

proof fn lemma_metas_are(
    metas: Seq<AccountMetaBytes>,
    fixed_metas: Seq<AccountMetaBytes>,
    fixed: Seq<(Seq<u8>, bool, bool)>,
    extra: Seq<AccountMetaBytes>,
)
    requires
        metas == fixed_metas + extra,
        fixed_metas.len() == fixed.len(),
        forall|i: int| 0 <= i < fixed.len() ==> #[trigger] meta_is(fixed_metas[i], fixed[i].0, fixed[i].1, fixed[i].2),
    ensures
        metas_are(metas, fixed, extra),
{
    assert forall|i: int| 0 <= i < fixed.len() implies #[trigger] meta_is(metas[i], fixed[i].0, fixed[i].1, fixed[i].2) by {
        assert(metas[i] == fixed_metas[i]);
    }
    assert(metas.subrange(fixed.len() as int, metas.len() as int) =~= extra);
}

/// The SPL Token program address bytes.
pub open spec fn token_program_bytes() -> Seq<u8> {
    address_bytes(TOKEN_PROGRAM_ID.spec_bytes())
}

/// Raydium AMM V4 accounts: amm, authority (signer), user source, user
/// destination, source vault, destination vault, token program.
pub open spec fn raydium_amm_accounts(a: SwapAccounts, d: SwapDirection, token: Seq<u8>) -> Seq<(Seq<u8>, bool, bool)> {
    let (src, dst) = vaults_in_order(a, d);
    seq![
        (a.pool_state.bytes(), false, true),
        (a.user_authority.bytes(), true, false),
        (a.user_source_token_account.bytes(), false, true),
        (a.user_destination_token_account.bytes(), false, true),
        (src, false, true),
        (dst, false, true),
        (token, false, false),
    ]
}

/// Raydium CLMM accounts: payer (signer), pool state, user source, user
/// destination, input vault, output vault, token program.
pub open spec fn raydium_clmm_accounts(a: SwapAccounts, d: SwapDirection, token: Seq<u8>) -> Seq<(Seq<u8>, bool, bool)> {
    let (src, dst) = vaults_in_order(a, d);
    seq![
        (a.user_authority.bytes(), true, false),
        (a.pool_state.bytes(), false, true),
        (a.user_source_token_account.bytes(), false, true),
        (a.user_destination_token_account.bytes(), false, true),
        (src, false, true),
        (dst, false, true),
        (token, false, false),
    ]
}

/// Whirlpool accounts: token program, authority (signer), whirlpool, user
/// source, source vault, user destination, destination vault.
pub open spec fn whirlpool_accounts(a: SwapAccounts, d: SwapDirection, token: Seq<u8>) -> Seq<(Seq<u8>, bool, bool)> {
    let (src, dst) = vaults_in_order(a, d);
    seq![
        (token, false, false),
        (a.user_authority.bytes(), true, false),
        (a.pool_state.bytes(), false, true),
        (a.user_source_token_account.bytes(), false, true),
        (src, false, true),
        (a.user_destination_token_account.bytes(), false, true),
        (dst, false, true),
    ]
}

/// Meteora DLMM accounts: lb pair, user (signer), user source, user
/// destination, source reserve, destination reserve, token program.
pub open spec fn meteora_dlmm_accounts(a: SwapAccounts, d: SwapDirection, token: Seq<u8>) -> Seq<(Seq<u8>, bool, bool)> {
    raydium_amm_accounts(a, d, token)
}

/// The source and destination vaults for `direction`.
fn ordered_vaults(accounts: &SwapAccounts, direction: SwapDirection) -> (r: (PubkeyBytes, PubkeyBytes))
    ensures
        (r.0.bytes(), r.1.bytes()) == vaults_in_order(*accounts, direction),
{
    match direction {
        SwapDirection::AtoB => (accounts.token_a_vault, accounts.token_b_vault),
        SwapDirection::BtoA => (accounts.token_b_vault, accounts.token_a_vault),
    }
}

/// Raydium AMM V4 swap instruction.
pub fn build_raydium_amm_swap(
    direction: SwapDirection,
    amount_in: u64,
    minimum_amount_out: u64,
    accounts: &SwapAccounts,
) -> (r: Result<Vec<SwapInstruction>, EngineError>)
    ensures
        builder_result(r, RAYDIUM_AMM_PROGRAM_ID.spec_bytes(),
            raydium_amm_accounts(*accounts, direction, token_program_bytes()),
            accounts.extra_accounts@, raydium_amm_data(amount_in, minimum_amount_out)),
{
    let program_id = match program_address(RAYDIUM_AMM_PROGRAM_ID) {
        Ok(pk) => pk,
        Err(e) => return Err(e),
    };
    let token_program = match program_address(TOKEN_PROGRAM_ID) {
        Ok(pk) => pk,
        Err(e) => return Err(e),
    };
    let mut data: Vec<u8> = Vec::new();
    data.push(9u8);
    push_le(&mut data, amount_in as u128, 8);
    push_le(&mut data, minimum_amount_out as u128, 8);
    proof {
        assert(data@ =~= raydium_amm_data(amount_in, minimum_amount_out));
    }
    let (source_vault, dest_vault) = ordered_vaults(accounts, direction);
    let mut fixed: Vec<AccountMetaBytes> = Vec::new();
    fixed.push(AccountMetaBytes::writable(accounts.pool_state, false));
    fixed.push(AccountMetaBytes::readonly(accounts.user_authority, true));
    fixed.push(AccountMetaBytes::writable(accounts.user_source_token_account, false));
    fixed.push(AccountMetaBytes::writable(accounts.user_destination_token_account, false));
    fixed.push(AccountMetaBytes::writable(source_vault, false));
    fixed.push(AccountMetaBytes::writable(dest_vault, false));
    fixed.push(AccountMetaBytes::readonly(token_program, false));
    let ixs = assemble(program_id, fixed, &accounts.extra_accounts, data);
    proof {
        let f = raydium_amm_accounts(*accounts, direction, token_program_bytes());
        lemma_metas_are(ixs@[0].accounts@, fixed@, f, accounts.extra_accounts@);
    }
    Ok(ixs)
}


/// Raydium CLMM swap instruction (exact input, no price limit).
pub fn build_raydium_clmm_swap(
    direction: SwapDirection,
    amount_in: u64,
    minimum_amount_out: u64,
    accounts: &SwapAccounts,
) -> (r: Result<Vec<SwapInstruction>, EngineError>)
    ensures
        builder_result(r, RAYDIUM_CLMM_PROGRAM_ID.spec_bytes(),
            raydium_clmm_accounts(*accounts, direction, token_program_bytes()),
            accounts.extra_accounts@,
            raydium_clmm_data(amount_in, minimum_amount_out, direction == SwapDirection::AtoB)),
{
    let program_id = match program_address(RAYDIUM_CLMM_PROGRAM_ID) {
        Ok(pk) => pk,
        Err(e) => return Err(e),
    };
    let token_program = match program_address(TOKEN_PROGRAM_ID) {
        Ok(pk) => pk,
        Err(e) => return Err(e),
    };
    let a_to_b = direction == SwapDirection::AtoB;
    let mut data: Vec<u8> = Vec::new();
    let mut i: usize = 0;
    while i < 8
        invariant
            i <= 8,
            data@ == ANCHOR_SWAP_DISCRIMINATOR@.subrange(0, i as int),
        decreases 8 - i,
    {
        data.push(ANCHOR_SWAP_DISCRIMINATOR[i]);
        proof {
            assert(ANCHOR_SWAP_DISCRIMINATOR@.subrange(0, i + 1)
                =~= ANCHOR_SWAP_DISCRIMINATOR@.subrange(0, i as int).push(ANCHOR_SWAP_DISCRIMINATOR@[i as int]));
        }
        i = i + 1;
    }
    proof {
        assert(ANCHOR_SWAP_DISCRIMINATOR@.subrange(0, 8) =~= ANCHOR_SWAP_DISCRIMINATOR@);
    }
    push_le(&mut data, amount_in as u128, 8);
    push_le(&mut data, minimum_amount_out as u128, 8);
    push_le(&mut data, 0u128, 16);
    data.push(if a_to_b { 1u8 } else { 0u8 });
    proof {
        assert(data@ =~= raydium_clmm_data(amount_in, minimum_amount_out, a_to_b));
    }
    let (source_vault, dest_vault) = ordered_vaults(accounts, direction);
    let mut fixed: Vec<AccountMetaBytes> = Vec::new();
    fixed.push(AccountMetaBytes::readonly(accounts.user_authority, true));
    fixed.push(AccountMetaBytes::writable(accounts.pool_state, false));
    fixed.push(AccountMetaBytes::writable(accounts.user_source_token_account, false));
    fixed.push(AccountMetaBytes::writable(accounts.user_destination_token_account, false));
    fixed.push(AccountMetaBytes::writable(source_vault, false));
    fixed.push(AccountMetaBytes::writable(dest_vault, false));
    fixed.push(AccountMetaBytes::readonly(token_program, false));
    let ixs = assemble(program_id, fixed, &accounts.extra_accounts, data);
    proof {
        let f = raydium_clmm_accounts(*accounts, direction, token_program_bytes());
        lemma_metas_are(ixs@[0].accounts@, fixed@, f, accounts.extra_accounts@);
    }
    Ok(ixs)
}

/// Orca Whirlpool swap instruction (exact input, sqrt-price limit at the
/// end of the range in the swap direction).
pub fn build_whirlpool_swap(
    direction: SwapDirection,
    amount_in: u64,
    minimum_amount_out: u64,
    accounts: &SwapAccounts,
) -> (r: Result<Vec<SwapInstruction>, EngineError>)
    ensures
        builder_result(r, WHIRLPOOL_PROGRAM_ID.spec_bytes(),
            whirlpool_accounts(*accounts, direction, token_program_bytes()),
            accounts.extra_accounts@,
            whirlpool_data(amount_in, minimum_amount_out, direction == SwapDirection::AtoB)),
{
    let program_id = match program_address(WHIRLPOOL_PROGRAM_ID) {
        Ok(pk) => pk,
        Err(e) => return Err(e),
    };
    let token_program = match program_address(TOKEN_PROGRAM_ID) {
        Ok(pk) => pk,
        Err(e) => return Err(e),
    };
    let a_to_b = direction == SwapDirection::AtoB;
    let sqrt_price_limit: u128 = if a_to_b { WHIRLPOOL_MIN_SQRT_PRICE } else { WHIRLPOOL_MAX_SQRT_PRICE };
    let mut data: Vec<u8> = Vec::new();
    let mut i: usize = 0;
    while i < 8
        invariant
            i <= 8,
            data@ == WHIRLPOOL_SWAP_DISCRIMINATOR@.subrange(0, i as int),
        decreases 8 - i,
    {
        data.push(WHIRLPOOL_SWAP_DISCRIMINATOR[i]);
        proof {
            assert(WHIRLPOOL_SWAP_DISCRIMINATOR@.subrange(0, i + 1)
                =~= WHIRLPOOL_SWAP_DISCRIMINATOR@.subrange(0, i as int).push(WHIRLPOOL_SWAP_DISCRIMINATOR@[i as int]));
        }
        i = i + 1;
    }
    proof {
        assert(WHIRLPOOL_SWAP_DISCRIMINATOR@.subrange(0, 8) =~= WHIRLPOOL_SWAP_DISCRIMINATOR@);
    }
    push_le(&mut data, amount_in as u128, 8);
    push_le(&mut data, minimum_amount_out as u128, 8);
    push_le(&mut data, sqrt_price_limit, 16);
    data.push(1u8);
    data.push(if a_to_b { 1u8 } else { 0u8 });
    proof {
        assert(data@ =~= whirlpool_data(amount_in, minimum_amount_out, a_to_b));
    }
    let (source_vault, dest_vault) = ordered_vaults(accounts, direction);
    let mut fixed: Vec<AccountMetaBytes> = Vec::new();
    fixed.push(AccountMetaBytes::readonly(token_program, false));
    fixed.push(AccountMetaBytes::readonly(accounts.user_authority, true));
    fixed.push(AccountMetaBytes::writable(accounts.pool_state, false));
    fixed.push(AccountMetaBytes::writable(accounts.user_source_token_account, false));
    fixed.push(AccountMetaBytes::writable(source_vault, false));
    fixed.push(AccountMetaBytes::writable(accounts.user_destination_token_account, false));
    fixed.push(AccountMetaBytes::writable(dest_vault, false));
    let ixs = assemble(program_id, fixed, &accounts.extra_accounts, data);
    proof {
        let f = whirlpool_accounts(*accounts, direction, token_program_bytes());
        lemma_metas_are(ixs@[0].accounts@, fixed@, f, accounts.extra_accounts@);
    }
    Ok(ixs)
}

/// Meteora DLMM swap instruction.
pub fn build_meteora_dlmm_swap(
    direction: SwapDirection,
    amount_in: u64,
    minimum_amount_out: u64,
    accounts: &SwapAccounts,
) -> (r: Result<Vec<SwapInstruction>, EngineError>)
    ensures
        builder_result(r, METEORA_DLMM_PROGRAM_ID.spec_bytes(),
            meteora_dlmm_accounts(*accounts, direction, token_program_bytes()),
            accounts.extra_accounts@,
            meteora_dlmm_data(amount_in, minimum_amount_out, direction == SwapDirection::AtoB)),
{
    let program_id = match program_address(METEORA_DLMM_PROGRAM_ID) {
        Ok(pk) => pk,
        Err(e) => return Err(e),
    };
    let token_program = match program_address(TOKEN_PROGRAM_ID) {
        Ok(pk) => pk,
        Err(e) => return Err(e),
    };
    let a_to_b = direction == SwapDirection::AtoB;
    let mut data: Vec<u8> = Vec::new();
    let mut i: usize = 0;
    while i < 8
        invariant
            i <= 8,
            data@ == ANCHOR_SWAP_DISCRIMINATOR@.subrange(0, i as int),
        decreases 8 - i,
    {
        data.push(ANCHOR_SWAP_DISCRIMINATOR[i]);
        proof {
            assert(ANCHOR_SWAP_DISCRIMINATOR@.subrange(0, i + 1)
                =~= ANCHOR_SWAP_DISCRIMINATOR@.subrange(0, i as int).push(ANCHOR_SWAP_DISCRIMINATOR@[i as int]));
        }
        i = i + 1;
    }
    proof {
        assert(ANCHOR_SWAP_DISCRIMINATOR@.subrange(0, 8) =~= ANCHOR_SWAP_DISCRIMINATOR@);
    }
    push_le(&mut data, amount_in as u128, 8);
    push_le(&mut data, minimum_amount_out as u128, 8);
    data.push(if a_to_b { 1u8 } else { 0u8 });
    proof {
        assert(data@ =~= meteora_dlmm_data(amount_in, minimum_amount_out, a_to_b));
    }
    let (source_vault, dest_vault) = ordered_vaults(accounts, direction);
    let mut fixed: Vec<AccountMetaBytes> = Vec::new();
    fixed.push(AccountMetaBytes::writable(accounts.pool_state, false));
    fixed.push(AccountMetaBytes::readonly(accounts.user_authority, true));
    fixed.push(AccountMetaBytes::writable(accounts.user_source_token_account, false));
    fixed.push(AccountMetaBytes::writable(accounts.user_destination_token_account, false));
    fixed.push(AccountMetaBytes::writable(source_vault, false));
    fixed.push(AccountMetaBytes::writable(dest_vault, false));
    fixed.push(AccountMetaBytes::readonly(token_program, false));
    let ixs = assemble(program_id, fixed, &accounts.extra_accounts, data);
    proof {
        let f = meteora_dlmm_accounts(*accounts, direction, token_program_bytes());
        lemma_metas_are(ixs@[0].accounts@, fixed@, f, accounts.extra_accounts@);
    }
    Ok(ixs)
}

/// Whether `r` is what encoding a swap through `pool` gives: the DEX's one
/// instruction, or `UnsupportedPool`.
pub open spec fn builds_to(
    pool: PoolEdge,
    direction: SwapDirection,
    amount_in: u64,
    minimum_amount_out: u64,
    accounts: SwapAccounts,
    r: Result<Vec<SwapInstruction>, EngineError>,
) -> bool {
    match (pool.dex, pool.pool_type) {
        (DexProtocol::Raydium, PoolType::Amm) => builder_result(r, RAYDIUM_AMM_PROGRAM_ID.spec_bytes(),
            raydium_amm_accounts(accounts, direction, token_program_bytes()),
            accounts.extra_accounts@, raydium_amm_data(amount_in, minimum_amount_out)),
        (DexProtocol::Raydium, PoolType::ConcentratedLiquidity) => builder_result(r,
            RAYDIUM_CLMM_PROGRAM_ID.spec_bytes(),
            raydium_clmm_accounts(accounts, direction, token_program_bytes()),
            accounts.extra_accounts@,
            raydium_clmm_data(amount_in, minimum_amount_out, direction == SwapDirection::AtoB)),
        (DexProtocol::Whirlpool, _) => builder_result(r, WHIRLPOOL_PROGRAM_ID.spec_bytes(),
            whirlpool_accounts(accounts, direction, token_program_bytes()),
            accounts.extra_accounts@,
            whirlpool_data(amount_in, minimum_amount_out, direction == SwapDirection::AtoB)),
        (DexProtocol::Meteora, _) => builder_result(r, METEORA_DLMM_PROGRAM_ID.spec_bytes(),
            meteora_dlmm_accounts(accounts, direction, token_program_bytes()),
            accounts.extra_accounts@,
            meteora_dlmm_data(amount_in, minimum_amount_out, direction == SwapDirection::AtoB)),
        (dex, pool_type) => r == Err::<Vec<SwapInstruction>, EngineError>(
            EngineError::UnsupportedPool { dex, pool_type }),
    }
}

/// Builds the swap instruction of one hop, dispatching on the pool's DEX and type.
pub fn build_swap_instruction(
    pool: &PoolEdge,
    direction: SwapDirection,
    amount_in: u64,
    minimum_amount_out: u64,
    accounts: &SwapAccounts,
) -> (r: Result<Vec<SwapInstruction>, EngineError>)
    ensures
        builds_to(*pool, direction, amount_in, minimum_amount_out, *accounts, r),
{
    match (pool.dex, pool.pool_type) {
        (DexProtocol::Raydium, PoolType::Amm) => {
            build_raydium_amm_swap(direction, amount_in, minimum_amount_out, accounts)
        },
        (DexProtocol::Raydium, PoolType::ConcentratedLiquidity) => {
            build_raydium_clmm_swap(direction, amount_in, minimum_amount_out, accounts)
        },
        (DexProtocol::Whirlpool, _) => {
            build_whirlpool_swap(direction, amount_in, minimum_amount_out, accounts)
        },
        (DexProtocol::Meteora, _) => {
            build_meteora_dlmm_swap(direction, amount_in, minimum_amount_out, accounts)
        },
        (dex, pool_type) => Err(EngineError::UnsupportedPool { dex, pool_type }),
    }
}

/// The direction of a hop whose input is `input_mint`.
pub fn resolve_direction(pool: &PoolEdge, input_mint: &str) -> (r: Result<SwapDirection, EngineError>)
    ensures
        r == if pool.token_a.mint@ == input_mint@ {
            Ok::<SwapDirection, EngineError>(SwapDirection::AtoB)
        } else if pool.token_b.mint@ == input_mint@ {
            Ok(SwapDirection::BtoA)
        } else {
            Err(EngineError::MintNotInPool)
        },
{
    let input = input_mint.to_owned();
    if pool.token_a.mint == input {
        Ok(SwapDirection::AtoB)
    } else if pool.token_b.mint == input {
        Ok(SwapDirection::BtoA)
    } else {
        Err(EngineError::MintNotInPool)
    }
}

/// The mint a hop pays out when its input is `input_mint`.
pub fn output_mint_for_hop<'a>(pool: &'a PoolEdge, input_mint: &str) -> (r: Result<&'a str, EngineError>)
    ensures
        if pool.token_a.mint@ == input_mint@ {
            r matches Ok(m) && m@ == pool.token_b.mint@
        } else if pool.token_b.mint@ == input_mint@ {
            r matches Ok(m) && m@ == pool.token_a.mint@
        } else {
            r == Err::<&str, EngineError>(EngineError::MintNotInPool)
        },
{
    let input = input_mint.to_owned();
    if pool.token_a.mint == input {
        Ok(pool.token_b.mint.as_str())
    } else if pool.token_b.mint == input {
        Ok(pool.token_a.mint.as_str())
    } else {
        Err(EngineError::MintNotInPool)
    }
}

/// The direction flag of the swap data: a Raydium CLMM swap is 41 bytes
/// ending in 1 for an a-to-b swap and 0 for b-to-a; a Meteora DLMM swap is
/// 25 bytes ending in the same flag; a Whirlpool swap is 42 bytes whose
/// byte 40 (the amount is the input) is always 1 and whose last byte is the
/// same flag, its price limit the lowest square-root price for an a-to-b
/// swap (the price falls) and the highest for b-to-a. The two directions'
/// data differ nowhere else in the Raydium CLMM and Meteora DLMM swaps.
pub proof fn lemma_swap_data_direction_flag(amount_in: u64, minimum_amount_out: u64)
    ensures
        ({
            let ra = raydium_clmm_data(amount_in, minimum_amount_out, true);
            let rb = raydium_clmm_data(amount_in, minimum_amount_out, false);
            &&& ra.len() == 41 && rb.len() == 41
            &&& ra[40] == 1u8 && rb[40] == 0u8
            &&& forall|i: int| 0 <= i < 40 ==> ra[i] == rb[i]
        }),
        ({
            let ma = meteora_dlmm_data(amount_in, minimum_amount_out, true);
            let mb = meteora_dlmm_data(amount_in, minimum_amount_out, false);
            &&& ma.len() == 25 && mb.len() == 25
            &&& ma[24] == 1u8 && mb[24] == 0u8
            &&& forall|i: int| 0 <= i < 24 ==> ma[i] == mb[i]
        }),
        ({
            let wa = whirlpool_data(amount_in, minimum_amount_out, true);
            let wb = whirlpool_data(amount_in, minimum_amount_out, false);
            &&& wa.len() == 42 && wb.len() == 42
            &&& wa[40] == 1u8 && wb[40] == 1u8
            &&& wa[41] == 1u8 && wb[41] == 0u8
            &&& wa.subrange(24, 40) == le_bytes(WHIRLPOOL_MIN_SQRT_PRICE as nat, 16)
            &&& wb.subrange(24, 40) == le_bytes(WHIRLPOOL_MAX_SQRT_PRICE as nat, 16)
        }),
{
    let d = ANCHOR_SWAP_DISCRIMINATOR@;
    assert(d.len() == 8);
    assert(WHIRLPOOL_SWAP_DISCRIMINATOR@.len() == 8);
    let ra = raydium_clmm_data(amount_in, minimum_amount_out, true);
    let rb = raydium_clmm_data(amount_in, minimum_amount_out, false);
    assert forall|i: int| 0 <= i < 40 implies ra[i] == rb[i] by {
        let p = d + le_bytes(amount_in as nat, 8) + le_bytes(minimum_amount_out as nat, 8) + le_bytes(0, 16);
        assert(ra == p + seq![bool_byte(true)]);
        assert(rb == p + seq![bool_byte(false)]);
        assert(ra[i] == p[i] && rb[i] == p[i]);
    }
    let ma = meteora_dlmm_data(amount_in, minimum_amount_out, true);
    let mb = meteora_dlmm_data(amount_in, minimum_amount_out, false);
    assert forall|i: int| 0 <= i < 24 implies ma[i] == mb[i] by {
        let p = d + le_bytes(amount_in as nat, 8) + le_bytes(minimum_amount_out as nat, 8);
        assert(ma[i] == p[i] && mb[i] == p[i]);
    }
    let wa = whirlpool_data(amount_in, minimum_amount_out, true);
    let wb = whirlpool_data(amount_in, minimum_amount_out, false);
    let wp = WHIRLPOOL_SWAP_DISCRIMINATOR@ + le_bytes(amount_in as nat, 8) + le_bytes(minimum_amount_out as nat, 8);
    assert(wa.subrange(24, 40) =~= le_bytes(WHIRLPOOL_MIN_SQRT_PRICE as nat, 16)) by {
        assert(wa == wp + le_bytes(WHIRLPOOL_MIN_SQRT_PRICE as nat, 16) + seq![1u8, bool_byte(true)]);
    }
    assert(wb.subrange(24, 40) =~= le_bytes(WHIRLPOOL_MAX_SQRT_PRICE as nat, 16)) by {
        assert(wb == wp + le_bytes(WHIRLPOOL_MAX_SQRT_PRICE as nat, 16) + seq![1u8, bool_byte(false)]);
    }
}

/// The vault the user pays into is the vault of the token sold, and the
/// vault paid out of that of the token bought: in an a-to-b swap token a's
/// vault comes first and token b's second, in a b-to-a swap the reverse. In
/// the Raydium AMM, Raydium CLMM and Meteora DLMM account lists they are the
/// fifth and sixth accounts; in the Whirlpool list the fifth and seventh.
pub proof fn lemma_swap_vaults_follow_direction(a: SwapAccounts, token: Seq<u8>)
    ensures
        vaults_in_order(a, SwapDirection::AtoB) == (a.token_a_vault.bytes(), a.token_b_vault.bytes()),
        vaults_in_order(a, SwapDirection::BtoA) == (a.token_b_vault.bytes(), a.token_a_vault.bytes()),
        raydium_clmm_accounts(a, SwapDirection::AtoB, token)[4].0 == a.token_a_vault.bytes(),
        raydium_clmm_accounts(a, SwapDirection::AtoB, token)[5].0 == a.token_b_vault.bytes(),
        raydium_clmm_accounts(a, SwapDirection::BtoA, token)[4].0 == a.token_b_vault.bytes(),
        raydium_clmm_accounts(a, SwapDirection::BtoA, token)[5].0 == a.token_a_vault.bytes(),
        raydium_amm_accounts(a, SwapDirection::AtoB, token)[4].0 == a.token_a_vault.bytes(),
        raydium_amm_accounts(a, SwapDirection::AtoB, token)[5].0 == a.token_b_vault.bytes(),
        raydium_amm_accounts(a, SwapDirection::BtoA, token)[4].0 == a.token_b_vault.bytes(),
        raydium_amm_accounts(a, SwapDirection::BtoA, token)[5].0 == a.token_a_vault.bytes(),
        meteora_dlmm_accounts(a, SwapDirection::AtoB, token)[4].0 == a.token_a_vault.bytes(),
        meteora_dlmm_accounts(a, SwapDirection::BtoA, token)[4].0 == a.token_b_vault.bytes(),
        whirlpool_accounts(a, SwapDirection::AtoB, token)[4].0 == a.token_a_vault.bytes(),
        whirlpool_accounts(a, SwapDirection::AtoB, token)[6].0 == a.token_b_vault.bytes(),
        whirlpool_accounts(a, SwapDirection::BtoA, token)[4].0 == a.token_b_vault.bytes(),
        whirlpool_accounts(a, SwapDirection::BtoA, token)[6].0 == a.token_a_vault.bytes(),
{
}

} // verus!
