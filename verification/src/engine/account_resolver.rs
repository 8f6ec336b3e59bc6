use vstd::prelude::*;
use vstd::utf8::encode_utf8;
use vstd::string::StringSliceAdditionalSpecFns;
use crate::account_data::{field, read_pubkey};
use crate::base58::{parse_pool_address, AddressError, is_decoding_of, all_digits, is_first_invalid};
use crate::engine::instruction_builder::{AccountMetaBytes, SwapAccounts, meta_is};
use crate::error::EngineError;
use crate::pool::PubkeyBytes;
use crate::types::{DexProtocol, PoolEdge, PoolType};
use crate::engine::instruction_builder::{le_bytes, push_le};
use std::collections::hash_map::DefaultHasher;
use std::hash::Hasher;
use vstd::std_specs::hash::DefaultHasherAdditionalSpecFns;

verus! {

/// Fetched account data, keyed by account address.
pub struct AccountCache {
    entries: Vec<(PubkeyBytes, Vec<u8>)>,
}

/// Data of the first entry of `entries` whose address is `key`.
pub open spec fn lookup_from(entries: Seq<(PubkeyBytes, Vec<u8>)>, key: Seq<u8>) -> Option<Seq<u8>>
    decreases entries.len(),
{
    if entries.len() == 0 {
        None
    } else if entries[0].0.bytes() == key {
        Some(entries[0].1@)
    } else {
        lookup_from(entries.drop_first(), key)
    }
}

proof fn lemma_lookup_skip(e: Seq<(PubkeyBytes, Vec<u8>)>, key: Seq<u8>, i: int)
    requires
        0 <= i <= e.len(),
        forall|j: int| 0 <= j < i ==> e[j].0.bytes() != key,
    ensures
        lookup_from(e, key) == lookup_from(e.subrange(i, e.len() as int), key),
    decreases i,
{
    if i == 0 {
        assert(e.subrange(0, e.len() as int) =~= e);
    } else {
        lemma_lookup_skip(e.drop_first(), key, i - 1);
        assert(e.drop_first().subrange(i - 1, e.len() - 1) =~= e.subrange(i, e.len() as int));
    }
}

proof fn lemma_lookup_same(e1: Seq<(PubkeyBytes, Vec<u8>)>, e2: Seq<(PubkeyBytes, Vec<u8>)>, key: Seq<u8>)
    requires
        e1.len() == e2.len(),
        forall|j: int| 0 <= j < e1.len() ==> e1[j].0.bytes() == e2[j].0.bytes(),
        forall|j: int| 0 <= j < e1.len() && e1[j].0.bytes() == key ==> e1[j].1@ == e2[j].1@,
    ensures
        lookup_from(e1, key) == lookup_from(e2, key),
    decreases e1.len(),
{
    if e1.len() > 0 {
        lemma_lookup_same(e1.drop_first(), e2.drop_first(), key);
    }
}

proof fn lemma_lookup_push(e: Seq<(PubkeyBytes, Vec<u8>)>, x: (PubkeyBytes, Vec<u8>), key: Seq<u8>)
    ensures
        lookup_from(e.push(x), key) == match lookup_from(e, key) {
            Some(d) => Some(d),
            None => if x.0.bytes() == key { Some(x.1@) } else { None },
        },
    decreases e.len(),
{
    if e.len() == 0 {
        assert(e.push(x).drop_first() =~= Seq::<(PubkeyBytes, Vec<u8>)>::empty());
    } else {
        assert(e.push(x).drop_first() =~= e.drop_first().push(x));
        lemma_lookup_push(e.drop_first(), x, key);
    }
}

impl AccountCache {
    /// The data cached for the account whose address bytes are `key`.
    pub closed spec fn lookup(&self, key: Seq<u8>) -> Option<Seq<u8>> {
        lookup_from(self.entries@, key)
    }

    /// An empty cache.
    pub fn new() -> (r: Self)
        ensures
            forall|key: Seq<u8>| r.lookup(key) is None,
    {
        AccountCache { entries: Vec::new() }
    }

    /// Index of the first entry for `address`, if any.
    fn position(&self, address: &PubkeyBytes) -> (r: Option<usize>)
        ensures
            match r {
                Some(i) => i < self.entries@.len() && self.entries@[i as int].0.bytes() == address.bytes()
                    && forall|j: int| 0 <= j < i ==> self.entries@[j].0.bytes() != address.bytes(),
                None => forall|j: int| 0 <= j < self.entries@.len() ==> self.entries@[j].0.bytes() != address.bytes(),
            },
    {
        let mut i: usize = 0;
        while i < self.entries.len()
            invariant
                i <= self.entries@.len(),
                forall|j: int| 0 <= j < i ==> self.entries@[j].0.bytes() != address.bytes(),
            decreases self.entries@.len() - i,
        {
            if self.entries[i].0 == *address {
                return Some(i);
            }
            i = i + 1;
        }
        None
    }

    /// Stores `data` for `address`, replacing what was cached for it.
    pub fn insert(&mut self, address: PubkeyBytes, data: Vec<u8>)
        ensures
            final(self).lookup(address.bytes()) == Some(data@),
            forall|key: Seq<u8>| key != address.bytes() ==> #[trigger] final(self).lookup(key) == old(self).lookup(key),
    {
        let ghost old_entries = self.entries@;
        let ghost d = data@;
        match self.position(&address) {
            Some(i) => {
                self.entries.set(i, (address, data));
                proof {
                    let e = self.entries@;
                    lemma_lookup_skip(e, address.bytes(), i as int);
                    assert(e.subrange(i as int, e.len() as int)[0] == e[i as int]);
                    assert forall|key: Seq<u8>| key != address.bytes() implies
                        #[trigger] lookup_from(e, key) == lookup_from(old_entries, key) by {
                        lemma_lookup_same(e, old_entries, key);
                    }
                }
            },
            None => {
                self.entries.push((address, data));
                proof {
                    let x = (address, self.entries@.last().1);
                    assert(self.entries@ =~= old_entries.push(self.entries@.last()));
                    lemma_lookup_skip(old_entries, address.bytes(), old_entries.len() as int);
                    assert(old_entries.subrange(old_entries.len() as int, old_entries.len() as int)
                        =~= Seq::<(PubkeyBytes, Vec<u8>)>::empty());
                    lemma_lookup_push(old_entries, self.entries@.last(), address.bytes());
                    assert forall|key: Seq<u8>| key != address.bytes() implies
                        #[trigger] lookup_from(self.entries@, key) == lookup_from(old_entries, key) by {
                        lemma_lookup_push(old_entries, self.entries@.last(), key);
                    }
                }
            },
        }
    }

    /// The data cached for `address`.
    pub fn get(&self, address: &PubkeyBytes) -> (r: Option<&Vec<u8>>)
        ensures
            match r {
                Some(d) => self.lookup(address.bytes()) == Some(d@),
                None => self.lookup(address.bytes()) is None,
            },
    {
        let pos = self.position(address);
        proof {
            match pos {
                Some(i) => {
                    lemma_lookup_skip(self.entries@, address.bytes(), i as int);
                    let e = self.entries@;
                    assert(e.subrange(i as int, e.len() as int)[0] == e[i as int]);
                },
                None => {
                    let e = self.entries@;
                    lemma_lookup_skip(e, address.bytes(), e.len() as int);
                    assert(e.subrange(e.len() as int, e.len() as int) =~= Seq::<(PubkeyBytes, Vec<u8>)>::empty());
                },
            }
        }
        match pos {
            Some(i) => Some(&self.entries[i].1),
            None => None,
        }
    }
}

/// The account layout of a pool kind: minimum length, offsets of the two
/// vault addresses, and offsets of the extra accounts the swap needs.
pub open spec fn layout(dex: DexProtocol, pool_type: PoolType) -> (int, int, int, Seq<int>) {
    match (dex, pool_type) {
        (DexProtocol::Raydium, PoolType::Amm) => (264, 200, 232, seq![136, 168]),
        (DexProtocol::Raydium, _) => (285, 73, 105, seq![253]),
        (DexProtocol::Whirlpool, _) => (165, 101, 133, Seq::empty()),
        (DexProtocol::Meteora, _) => (200, 72, 104, seq![168]),
    }
}

/// Whether `acc` holds the accounts of a swap through the pool at
/// `pool_address`, read from its account `data` with the given layout.
pub open spec fn resolved_from(
    acc: SwapAccounts,
    pool_address: PubkeyBytes,
    data: Seq<u8>,
    lay: (int, int, int, Seq<int>),
    user_authority: PubkeyBytes,
    user_source_ata: PubkeyBytes,
    user_dest_ata: PubkeyBytes,
) -> bool {
    let (_, vault_a, vault_b, extra) = lay;
    &&& acc.pool_state == pool_address
    &&& acc.token_a_vault.bytes() == field(data, vault_a, 32)
    &&& acc.token_b_vault.bytes() == field(data, vault_b, 32)
    &&& acc.user_source_token_account == user_source_ata
    &&& acc.user_destination_token_account == user_dest_ata
    &&& acc.user_authority == user_authority
    &&& acc.extra_accounts@.len() == extra.len()
    &&& forall|i: int| 0 <= i < extra.len() ==>
            #[trigger] meta_is(acc.extra_accounts@[i], field(data, extra[i], 32), false, true)
}

/// Outcome of resolving a pool kind's accounts from its account data.
pub open spec fn resolve_result(
    r: Result<SwapAccounts, EngineError>,
    pool_address: PubkeyBytes,
    data: Seq<u8>,
    lay: (int, int, int, Seq<int>),
    user_authority: PubkeyBytes,
    user_source_ata: PubkeyBytes,
    user_dest_ata: PubkeyBytes,
) -> bool {
    if data.len() < lay.0 {
        r == Err::<SwapAccounts, EngineError>(EngineError::AccountTooShort { len: data.len() as usize, need: lay.0 as usize })
    } else {
        r matches Ok(acc) && resolved_from(acc, pool_address, data, lay, user_authority, user_source_ata, user_dest_ata)
    }
}

/// Reads the address at `offset`, which the caller has checked lies in `data`.
fn pubkey_in(data: &[u8], offset: usize) -> (r: PubkeyBytes)
    requires
        offset + 32 <= data@.len(),
        offset <= 1024,
    ensures
        r.bytes() == field(data@, offset as int, 32),
{
    let r = read_pubkey(data, offset);
    proof {
        assert(crate::account_data::pubkey_spec(data@, offset) == Ok::<Seq<u8>, crate::error::AccountDataError>(field(data@, offset as int, 32)));
    }
    match r {
        Ok(pk) => pk,
        Err(_) => PubkeyBytes([0u8; 32]),
    }
}

/// Accounts of a Raydium AMM V4 swap: vaults at offsets 200 and 232, open
/// orders (136) and target orders (168) as extra writable accounts.
pub fn resolve_raydium_amm(
    data: &[u8],
    pool_address: PubkeyBytes,
    user_authority: &PubkeyBytes,
    user_source_ata: &PubkeyBytes,
    user_dest_ata: &PubkeyBytes,
) -> (r: Result<SwapAccounts, EngineError>)
    ensures
        resolve_result(r, pool_address, data@, layout(DexProtocol::Raydium, PoolType::Amm),
            *user_authority, *user_source_ata, *user_dest_ata),
{
    if data.len() < 264 {
        return Err(EngineError::AccountTooShort { len: data.len(), need: 264 });
    }
    let token_a_vault = pubkey_in(data, 200);
    let token_b_vault = pubkey_in(data, 232);
    let mut extra: Vec<AccountMetaBytes> = Vec::new();
    extra.push(AccountMetaBytes::writable(pubkey_in(data, 136), false));
    extra.push(AccountMetaBytes::writable(pubkey_in(data, 168), false));
    let acc = SwapAccounts {
        pool_state: pool_address,
        token_a_vault,
        token_b_vault,
        user_source_token_account: *user_source_ata,
        user_destination_token_account: *user_dest_ata,
        user_authority: *user_authority,
        extra_accounts: extra,
    };
    proof {
        let lay = layout(DexProtocol::Raydium, PoolType::Amm);
        assert(lay.3[0] == 136 && lay.3[1] == 168);
    }
    Ok(acc)
}

/// Accounts of a Raydium CLMM swap: vaults at offsets 73 and 105, the
/// observation account (253) as an extra writable account.
pub fn resolve_raydium_clmm(
    data: &[u8],
    pool_address: PubkeyBytes,
    user_authority: &PubkeyBytes,
    user_source_ata: &PubkeyBytes,
    user_dest_ata: &PubkeyBytes,
) -> (r: Result<SwapAccounts, EngineError>)
    ensures
        resolve_result(r, pool_address, data@, layout(DexProtocol::Raydium, PoolType::ConcentratedLiquidity),
            *user_authority, *user_source_ata, *user_dest_ata),
{
    if data.len() < 285 {
        return Err(EngineError::AccountTooShort { len: data.len(), need: 285 });
    }
    let token_a_vault = pubkey_in(data, 73);
    let token_b_vault = pubkey_in(data, 105);
    let mut extra: Vec<AccountMetaBytes> = Vec::new();
    extra.push(AccountMetaBytes::writable(pubkey_in(data, 253), false));
    let acc = SwapAccounts {
        pool_state: pool_address,
        token_a_vault,
        token_b_vault,
        user_source_token_account: *user_source_ata,
        user_destination_token_account: *user_dest_ata,
        user_authority: *user_authority,
        extra_accounts: extra,
    };
    proof {
        let lay = layout(DexProtocol::Raydium, PoolType::ConcentratedLiquidity);
        assert(lay.3[0] == 253);
    }
    Ok(acc)
}

/// Accounts of a Whirlpool swap: vaults at offsets 101 and 133, no extra
/// accounts (the tick arrays and oracle are not derived).
pub fn resolve_whirlpool(
    data: &[u8],
    pool_address: PubkeyBytes,
    user_authority: &PubkeyBytes,
    user_source_ata: &PubkeyBytes,
    user_dest_ata: &PubkeyBytes,
) -> (r: Result<SwapAccounts, EngineError>)
    ensures
        resolve_result(r, pool_address, data@, layout(DexProtocol::Whirlpool, PoolType::ConcentratedLiquidity),
            *user_authority, *user_source_ata, *user_dest_ata),
{
    if data.len() < 165 {
        return Err(EngineError::AccountTooShort { len: data.len(), need: 165 });
    }
    let token_a_vault = pubkey_in(data, 101);
    let token_b_vault = pubkey_in(data, 133);
    Ok(SwapAccounts {
        pool_state: pool_address,
        token_a_vault,
        token_b_vault,
        user_source_token_account: *user_source_ata,
        user_destination_token_account: *user_dest_ata,
        user_authority: *user_authority,
        extra_accounts: Vec::new(),
    })
}

/// Accounts of a Meteora DLMM swap: reserves at offsets 72 and 104, the
/// oracle (168) as an extra writable account.
pub fn resolve_meteora_dlmm(
    data: &[u8],
    pool_address: PubkeyBytes,
    user_authority: &PubkeyBytes,
    user_source_ata: &PubkeyBytes,
    user_dest_ata: &PubkeyBytes,
) -> (r: Result<SwapAccounts, EngineError>)
    ensures
        resolve_result(r, pool_address, data@, layout(DexProtocol::Meteora, PoolType::Dlmm),
            *user_authority, *user_source_ata, *user_dest_ata),
{
    if data.len() < 200 {
        return Err(EngineError::AccountTooShort { len: data.len(), need: 200 });
    }
    let token_a_vault = pubkey_in(data, 72);
    let token_b_vault = pubkey_in(data, 104);
    let mut extra: Vec<AccountMetaBytes> = Vec::new();
    extra.push(AccountMetaBytes::writable(pubkey_in(data, 168), false));
    let acc = SwapAccounts {
        pool_state: pool_address,
        token_a_vault,
        token_b_vault,
        user_source_token_account: *user_source_ata,
        user_destination_token_account: *user_dest_ata,
        user_authority: *user_authority,
        extra_accounts: extra,
    };
    proof {
        let lay = layout(DexProtocol::Meteora, PoolType::Dlmm);
        assert(lay.3[0] == 168);
    }
    Ok(acc)
}

/// Outcome of decoding a pool's base58 address.
pub open spec fn pool_address_result(s: Seq<u8>, r: Result<PubkeyBytes, AddressError>) -> bool {
    match r {
        Ok(pk) => all_digits(s) && is_decoding_of(s, pk.bytes()),
        Err(AddressError::InvalidCharacter { byte }) => is_first_invalid(s, byte),
        Err(AddressError::InvalidLength { len }) => all_digits(s)
            && len != 32 && exists|out: Seq<u8>| out.len() == len && is_decoding_of(s, out),
    }
}

/// Whether `r` is what resolving the accounts of a hop through `pool` can
/// give, for the user accounts given and the cached chain state.
pub open spec fn resolves_to(
    pool: PoolEdge,
    user_authority: PubkeyBytes,
    user_source_ata: PubkeyBytes,
    user_dest_ata: PubkeyBytes,
    account_cache: AccountCache,
    r: Result<SwapAccounts, EngineError>,
) -> bool {
    match r {
        Err(EngineError::InvalidPoolAddress(e)) => pool_address_result(encode_utf8(pool.address@), Err(e)),
        Err(EngineError::PoolAccountNotCached) => exists|pk: PubkeyBytes|
            pool_address_result(encode_utf8(pool.address@), Ok(pk))
            && account_cache.lookup(pk.bytes()) is None,
        Err(EngineError::UnsupportedPool { dex, pool_type }) => dex == pool.dex && pool_type == pool.pool_type
            && dex == DexProtocol::Raydium && pool_type == PoolType::Dlmm,
        Err(EngineError::AccountTooShort { .. }) | Ok(_) => exists|pk: PubkeyBytes, data: Seq<u8>|
            pool_address_result(encode_utf8(pool.address@), Ok(pk))
            && account_cache.lookup(pk.bytes()) == Some(data)
            && !(pool.dex == DexProtocol::Raydium && pool.pool_type == PoolType::Dlmm)
            && #[trigger] resolve_result(r, pk, data, layout(pool.dex, pool.pool_type),
                user_authority, user_source_ata, user_dest_ata),
        Err(_) => false,
    }
}

/// Resolves the accounts of a swap hop through `pool` from the pool's cached
/// account data.
pub fn resolve_swap_accounts(
    pool: &PoolEdge,
    input_mint: &str,
    user_authority: &PubkeyBytes,
    user_source_ata: &PubkeyBytes,
    user_dest_ata: &PubkeyBytes,
    account_cache: &AccountCache,
) -> (r: Result<SwapAccounts, EngineError>)
    ensures
        resolves_to(*pool, *user_authority, *user_source_ata, *user_dest_ata, *account_cache, r),
{
    let address = pool.address.as_str();
    let ghost text = encode_utf8(pool.address@);
    assert(address.spec_bytes() == text);
    let pool_address = match parse_pool_address(address) {
        Ok(pk) => pk,
        Err(e) => return Err(EngineError::InvalidPoolAddress(e)),
    };
    assert(pool_address_result(text, Ok(pool_address)));
    let data = match account_cache.get(&pool_address) {
        Some(d) => d,
        None => return Err(EngineError::PoolAccountNotCached),
    };
    let ghost d = data@;
    assert(account_cache.lookup(pool_address.bytes()) == Some(d));
    let bytes = data.as_slice();
    assert(bytes@ == d);
    let r = match (pool.dex, pool.pool_type) {
        (DexProtocol::Raydium, PoolType::Amm) => resolve_raydium_amm(
            bytes, pool_address, user_authority, user_source_ata, user_dest_ata),
        (DexProtocol::Raydium, PoolType::ConcentratedLiquidity) => resolve_raydium_clmm(
            bytes, pool_address, user_authority, user_source_ata, user_dest_ata),
        (DexProtocol::Whirlpool, _) => resolve_whirlpool(
            bytes, pool_address, user_authority, user_source_ata, user_dest_ata),
        (DexProtocol::Meteora, _) => resolve_meteora_dlmm(
            bytes, pool_address, user_authority, user_source_ata, user_dest_ata),
        (dex, pool_type) => Err(EngineError::UnsupportedPool { dex, pool_type }),
    };
    proof {
        if !(pool.dex == DexProtocol::Raydium && pool.pool_type == PoolType::Dlmm) {
            assert(resolve_result(r, pool_address, d, layout(pool.dex, pool.pool_type),
                *user_authority, *user_source_ata, *user_dest_ata));
        }
    }
    r
}

/// The accounts that must be fetched before a hop through `pool` can be
/// resolved: the pool state account alone.
pub fn required_accounts_for_pool(pool: &PoolEdge) -> (r: Result<Vec<PubkeyBytes>, EngineError>)
    ensures
        match r {
            Ok(v) => v@.len() == 1 && pool_address_result(encode_utf8(pool.address@), Ok(v@[0])),
            Err(EngineError::InvalidPoolAddress(e)) => pool_address_result(encode_utf8(pool.address@), Err(e)),
            Err(_) => false,
        },
{
    let address = pool.address.as_str();
    assert(address.spec_bytes() == encode_utf8(pool.address@));
    let pool_address = match parse_pool_address(address) {
        Ok(pk) => pk,
        Err(e) => return Err(EngineError::InvalidPoolAddress(e)),
    };
    let mut v: Vec<PubkeyBytes> = Vec::new();
    v.push(pool_address);
    Ok(v)
}

/// The writes that hash a 32-byte key followed by the text `mint`: the
/// key's length as eight little-endian bytes, the key, the text, and the
/// byte `0xff` that ends a string.
pub open spec fn key_and_text_writes(key: Seq<u8>, mint: Seq<u8>) -> Seq<Seq<u8>> {
    seq![le_bytes(32, 8), key, mint, seq![0xffu8]]
}

/// The address that `derive_simulated_ata` gives `wallet` and the mint text
/// `mint` (as bytes): two `DefaultHasher` outputs as little-endian bytes,
/// then the wallet's first sixteen bytes.
pub open spec fn simulated_ata_bytes(wallet: Seq<u8>, mint: Seq<u8>) -> Seq<u8> {
    let first = key_and_text_writes(wallet, mint);
    let second = first.push(le_bytes(mint.len(), 8)).push(mint);
    le_bytes(DefaultHasher::spec_finish(first) as nat, 8)
        + le_bytes(DefaultHasher::spec_finish(second) as nat, 8)
        + wallet.subrange(0, 16)
}

/// A 32-byte key from a 32-byte vector.
pub(crate) fn key_from_vec(v: &Vec<u8>) -> (r: PubkeyBytes)
    requires
        v@.len() == 32,
    ensures
        r.bytes() == v@,
{
    let mut arr = [0u8; 32];
    let mut k: usize = 0;
    while k < 32
        invariant
            k <= 32,
            v@.len() == 32,
            arr@.len() == 32,
            forall|j: int| 0 <= j < k ==> arr@[j] == v@[j],
        decreases 32 - k,
    {
        arr[k] = v[k];
        k = k + 1;
    }
    assert(arr@ =~= v@);
    PubkeyBytes(arr)
}

/// A deterministic stand-in for the token account of `wallet` for the mint
/// named `mint_str`, for simulations that create the account themselves.
pub fn derive_simulated_ata(wallet: &PubkeyBytes, mint_str: &str) -> (r: PubkeyBytes)
    ensures
        r.bytes() == simulated_ata_bytes(wallet.bytes(), mint_str.spec_bytes()),
{
    let mint = mint_str.as_bytes();
    let mut h = DefaultHasher::new();
    let mut prefix: Vec<u8> = Vec::new();
    push_le(&mut prefix, 32, 8);
    h.write(prefix.as_slice());
    h.write(wallet.0.as_slice());
    h.write(mint);
    let mut end: Vec<u8> = Vec::new();
    end.push(0xffu8);
    h.write(end.as_slice());
    proof {
        assert(seq![0xffu8] =~= end@);
        assert(h@ =~= key_and_text_writes(wallet.bytes(), mint_str.spec_bytes()));
    }
    let first = h.finish();
    let mut len_prefix: Vec<u8> = Vec::new();
    push_le(&mut len_prefix, mint.len() as u128, 8);
    h.write(len_prefix.as_slice());
    h.write(mint);
    proof {
        assert(h@ =~= key_and_text_writes(wallet.bytes(), mint_str.spec_bytes())
            .push(le_bytes(mint_str.spec_bytes().len(), 8)).push(mint_str.spec_bytes()));
    }
    let second = h.finish();
    let mut out: Vec<u8> = Vec::new();
    push_le(&mut out, first as u128, 8);
    push_le(&mut out, second as u128, 8);
    let mut k: usize = 0;
    while k < 16
        invariant
            k <= 16,
            wallet.bytes().len() == 32,
            out@ == le_bytes(first as nat, 8) + le_bytes(second as nat, 8) + wallet.bytes().subrange(0, k as int),
        decreases 16 - k,
    {
        out.push(wallet.0[k]);
        proof {
            assert(wallet.bytes().subrange(0, k + 1) =~= wallet.bytes().subrange(0, k as int).push(wallet.bytes()[k as int]));
        }
        k = k + 1;
    }
    key_from_vec(&out)
}

/// Resolving a pool's swap accounts reads token a's vault and token b's
/// vault from fixed offsets of its account: Raydium CLMM pools
/// `token_vault_0` at 73 and `token_vault_1` at 105 (and the observation
/// account at 253), Raydium AMM pools 200 and 232, Whirlpools 101 and 133,
/// Meteora DLMM pairs `reserve_x` at 72 and `reserve_y` at 104.
pub proof fn lemma_resolved_vault_offsets(
    r: Result<SwapAccounts, EngineError>,
    dex: DexProtocol,
    pool_type: PoolType,
    pool_address: PubkeyBytes,
    data: Seq<u8>,
    user_authority: PubkeyBytes,
    user_source_ata: PubkeyBytes,
    user_dest_ata: PubkeyBytes,
)
    requires
        resolve_result(r, pool_address, data, layout(dex, pool_type), user_authority, user_source_ata, user_dest_ata),
        r is Ok,
    ensures
        ({
            let acc = r->Ok_0;
            let (a, b) = match (dex, pool_type) {
                (DexProtocol::Raydium, PoolType::Amm) => (200int, 232int),
                (DexProtocol::Raydium, _) => (73int, 105int),
                (DexProtocol::Whirlpool, _) => (101int, 133int),
                (DexProtocol::Meteora, _) => (72int, 104int),
            };
            &&& acc.token_a_vault.bytes() == data.subrange(a, a + 32)
            &&& acc.token_b_vault.bytes() == data.subrange(b, b + 32)
            &&& (dex, pool_type) matches (DexProtocol::Raydium, PoolType::ConcentratedLiquidity) ==>
                acc.extra_accounts@.len() == 1 && acc.extra_accounts@[0].pubkey.bytes() == data.subrange(253, 285)
        }),
{
    let acc = r->Ok_0;
    if (dex, pool_type) matches (DexProtocol::Raydium, PoolType::ConcentratedLiquidity) {
        assert(layout(dex, pool_type).3[0] == 253);
        assert(meta_is(acc.extra_accounts@[0], field(data, 253, 32), false, true));
    }
}

} // verus!
