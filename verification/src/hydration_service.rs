use vstd::prelude::*;
use crate::account_data::field;
use crate::hydration::{
    int_at, uint_at, parse_token_vault_amount, parse_whirlpool_account, parse_whirlpool_tick_array,
    parse_meteora_active_id, parse_meteora_bin_array, meteora_bin_array_spec, whirlpool_ticks,
    whirlpool_tick_indices_fit, whirlpool_tick_array_min_len, whirlpool_tick_offset,
};
use crate::error::AccountDataError;
use crate::engine::instruction_builder::{address_bytes, is_address, le_bytes, WHIRLPOOL_PROGRAM_ID, METEORA_DLMM_PROGRAM_ID};
use crate::account_data::read_i32;
use crate::hydration::{WHIRLPOOL_TICK_ARRAY_HEADER_SIZE, WHIRLPOOL_TICK_SIZE, whirlpool_tick_array_start_tick, tick_array_start_spec, ticks_per_array, meteora_bin_array_index, METEORA_BINS_PER_ARRAY};
use crate::pda::{derive_whirlpool_tick_array_pda, derive_meteora_bin_array_pda, program_address_of, tick_array_seed, bin_array_seed, i32_decimal};
use vstd::string::StringSliceAdditionalSpecFns;
use crate::pool::{ClmmTick, DlmmBin, ClmmState, DlmmState, DexProtocol, Pool, PoolData, PubkeyBytes, same_pool};

verus! {

/// Whether `t` is one of `c`.
#[verifier::opaque]
pub open spec fn tick_occurs(c: Seq<ClmmTick>, t: ClmmTick) -> bool {
    exists|i: int| 0 <= i < c.len() && c[i] == t
}

/// Whether some tick of `out` has index `index`.
#[verifier::opaque]
pub open spec fn has_tick_index(out: Seq<ClmmTick>, index: i32) -> bool {
    exists|k: int| 0 <= k < out.len() && out[k].index == index
}

/// Whether `out` holds, by strictly increasing index, one tick of `c` for
/// each tick index that occurs in `c`.
pub open spec fn ticks_by_index(c: Seq<ClmmTick>, out: Seq<ClmmTick>) -> bool {
    &&& forall|i: int, j: int| 0 <= i < j < out.len() ==> out[i].index < out[j].index
    &&& forall|k: int| 0 <= k < out.len() ==> tick_occurs(c, #[trigger] out[k])
    &&& forall|i: int| 0 <= i < c.len() ==> has_tick_index(out, #[trigger] c[i].index)
}

/// Whether `b` is one of `c`.
#[verifier::opaque]
pub open spec fn bin_occurs(c: Seq<DlmmBin>, b: DlmmBin) -> bool {
    exists|i: int| 0 <= i < c.len() && c[i] == b
}

/// Whether some bin of `out` has id `id`.
#[verifier::opaque]
pub open spec fn has_bin_id(out: Seq<DlmmBin>, id: i32) -> bool {
    exists|k: int| 0 <= k < out.len() && out[k].id == id
}

/// Whether `out` holds, by strictly increasing id, one bin of `c` for each
/// bin id that occurs in `c`.
pub open spec fn bins_by_id(c: Seq<DlmmBin>, out: Seq<DlmmBin>) -> bool {
    &&& forall|i: int, j: int| 0 <= i < j < out.len() ==> out[i].id < out[j].id
    &&& forall|k: int| 0 <= k < out.len() ==> bin_occurs(c, #[trigger] out[k])
    &&& forall|i: int| 0 <= i < c.len() ==> has_bin_id(out, #[trigger] c[i].id)
}

/// Adds `x` to `out` unless a tick with its index is there, keeping `out`
/// sorted by index.
fn insert_tick(out: &mut Vec<ClmmTick>, x: ClmmTick, Ghost(cc): Ghost<Seq<ClmmTick>>)
    requires
        ticks_by_index(cc, old(out)@),
    ensures
        ticks_by_index(cc.push(x), final(out)@),
{
    let ghost cc2 = cc.push(x);
    let mut p: usize = 0;
    while p < out.len() && out[p].index < x.index
        invariant
            p <= out@.len(),
            forall|k: int| 0 <= k < p ==> out@[k].index < x.index,
        decreases out@.len() - p,
    {
        p = p + 1;
    }
    let ghost before = out@;
    proof {
        reveal(tick_occurs);
        reveal(has_tick_index);
        assert forall|k: int| 0 <= k < before.len() implies tick_occurs(cc2, #[trigger] before[k]) by {
            let i = choose|i: int| 0 <= i < cc.len() && cc[i] == before[k];
            assert(cc2[i] == cc[i]);
        }
    }
    if p < out.len() && out[p].index == x.index {
        proof {
            reveal(has_tick_index);
            assert forall|i: int| 0 <= i < cc2.len() implies has_tick_index(before, #[trigger] cc2[i].index) by {
                if i < cc.len() {
                    assert(cc2[i] == cc[i]);
                } else {
                    assert(before[p as int].index == cc2[i].index);
                }
            }
        }
    } else {
        out.insert(p, x);
        proof {
            reveal(tick_occurs);
            reveal(has_tick_index);
            let after = out@;
            assert forall|i: int, j: int| 0 <= i < j < after.len() implies after[i].index < after[j].index by {
                if i == p && j - 1 > p {
                    assert(before[p as int].index < before[j - 1].index);
                }
            }
            assert forall|k: int| 0 <= k < after.len() implies tick_occurs(cc2, #[trigger] after[k]) by {
                if k == p {
                    assert(cc2[cc.len() as int] == x);
                } else if k < p {
                    assert(after[k] == before[k]);
                } else {
                    assert(after[k] == before[k - 1]);
                }
            }
            assert forall|i: int| 0 <= i < cc2.len() implies has_tick_index(after, #[trigger] cc2[i].index) by {
                if i < cc.len() {
                    assert(cc2[i] == cc[i]);
                    assert(has_tick_index(before, cc[i].index));
                    let kb = choose|k: int| 0 <= k < before.len() && before[k].index == cc[i].index;
                    if kb < p {
                        assert(after[kb] == before[kb]);
                    } else {
                        assert(after[kb + 1] == before[kb]);
                    }
                } else {
                    assert(after[p as int].index == cc2[i].index);
                }
            }
        }
    }
}

/// Adds `x` to `out` unless a bin with its id is there, keeping `out`
/// sorted by id.
fn insert_bin(out: &mut Vec<DlmmBin>, x: DlmmBin, Ghost(cc): Ghost<Seq<DlmmBin>>)
    requires
        bins_by_id(cc, old(out)@),
    ensures
        bins_by_id(cc.push(x), final(out)@),
{
    let ghost cc2 = cc.push(x);
    let mut p: usize = 0;
    while p < out.len() && out[p].id < x.id
        invariant
            p <= out@.len(),
            forall|k: int| 0 <= k < p ==> out@[k].id < x.id,
        decreases out@.len() - p,
    {
        p = p + 1;
    }
    let ghost before = out@;
    proof {
        reveal(bin_occurs);
        reveal(has_bin_id);
        assert forall|k: int| 0 <= k < before.len() implies bin_occurs(cc2, #[trigger] before[k]) by {
            let i = choose|i: int| 0 <= i < cc.len() && cc[i] == before[k];
            assert(cc2[i] == cc[i]);
        }
    }
    if p < out.len() && out[p].id == x.id {
        proof {
            reveal(has_bin_id);
            assert forall|i: int| 0 <= i < cc2.len() implies has_bin_id(before, #[trigger] cc2[i].id) by {
                if i < cc.len() {
                    assert(cc2[i] == cc[i]);
                } else {
                    assert(before[p as int].id == cc2[i].id);
                }
            }
        }
    } else {
        out.insert(p, x);
        proof {
            reveal(bin_occurs);
            reveal(has_bin_id);
            let after = out@;
            assert forall|i: int, j: int| 0 <= i < j < after.len() implies after[i].id < after[j].id by {
                if i == p && j - 1 > p {
                    assert(before[p as int].id < before[j - 1].id);
                }
            }
            assert forall|k: int| 0 <= k < after.len() implies bin_occurs(cc2, #[trigger] after[k]) by {
                if k == p {
                    assert(cc2[cc.len() as int] == x);
                } else if k < p {
                    assert(after[k] == before[k]);
                } else {
                    assert(after[k] == before[k - 1]);
                }
            }
            assert forall|i: int| 0 <= i < cc2.len() implies has_bin_id(after, #[trigger] cc2[i].id) by {
                if i < cc.len() {
                    assert(cc2[i] == cc[i]);
                    assert(has_bin_id(before, cc[i].id));
                    let kb = choose|k: int| 0 <= k < before.len() && before[k].id == cc[i].id;
                    if kb < p {
                        assert(after[kb] == before[kb]);
                    } else {
                        assert(after[kb + 1] == before[kb]);
                    }
                } else {
                    assert(after[p as int].id == cc2[i].id);
                }
            }
        }
    }
}

/// Adds to `out` the ticks of `more` whose index it lacks, keeping `out`
/// sorted by index: the sort-then-dedup of the concatenation, first kept.
fn merge_ticks(out: &mut Vec<ClmmTick>, more: &Vec<ClmmTick>, Ghost(c): Ghost<Seq<ClmmTick>>)
    requires
        ticks_by_index(c, old(out)@),
    ensures
        ticks_by_index(c + more@, final(out)@),
{
    let mut m: usize = 0;
    proof {
        assert(c + more@.subrange(0, 0) =~= c);
    }
    while m < more.len()
        invariant
            m <= more@.len(),
            ticks_by_index(c + more@.subrange(0, m as int), out@),
        decreases more@.len() - m,
    {
        let x = more[m];
        proof {
            assert(c + more@.subrange(0, m + 1) =~= (c + more@.subrange(0, m as int)).push(x));
        }
        insert_tick(out, x, Ghost(c + more@.subrange(0, m as int)));
        m = m + 1;
    }
    proof {
        assert(more@.subrange(0, more@.len() as int) =~= more@);
    }
}


/// Adds to `out` the bins of `more` whose id it lacks, keeping `out` sorted
/// by id.
fn merge_bins(out: &mut Vec<DlmmBin>, more: &Vec<DlmmBin>, Ghost(c): Ghost<Seq<DlmmBin>>)
    requires
        bins_by_id(c, old(out)@),
    ensures
        bins_by_id(c + more@, final(out)@),
{
    let mut m: usize = 0;
    proof {
        assert(c + more@.subrange(0, 0) =~= c);
    }
    while m < more.len()
        invariant
            m <= more@.len(),
            bins_by_id(c + more@.subrange(0, m as int), out@),
        decreases more@.len() - m,
    {
        let x = more[m];
        proof {
            assert(c + more@.subrange(0, m + 1) =~= (c + more@.subrange(0, m as int)).push(x));
        }
        insert_bin(out, x, Ghost(c + more@.subrange(0, m as int)));
        m = m + 1;
    }
    proof {
        assert(more@.subrange(0, more@.len() as int) =~= more@);
    }
}

/// Whether `pool` is hydrated from chain data: a Whirlpool pool with
/// concentrated-liquidity state or a Meteora pool with DLMM state, whose two
/// vaults are known.
pub open spec fn hydratable(pool: Pool) -> bool {
    &&& pool.metadata.token_a.vault is Some
    &&& pool.metadata.token_b.vault is Some
    &&& (pool.metadata.protocol == DexProtocol::Whirlpool && pool.data is Clmm)
        || (pool.metadata.protocol == DexProtocol::Meteora && pool.data is Dlmm)
}

/// The accounts the first hydration step of `pool` reads: the pool account
/// and its two token vaults; `None` when the pool is not hydrated.
pub fn hydration_accounts(pool: &Pool) -> (r: Option<Vec<PubkeyBytes>>)
    ensures
        match r {
            Some(keys) => hydratable(*pool) && keys@ == seq![pool.metadata.pubkey,
                pool.metadata.token_a.vault->0, pool.metadata.token_b.vault->0],
            None => !hydratable(*pool),
        },
{
    let vault_a = match pool.metadata.token_a.vault {
        Some(v) => v,
        None => return None,
    };
    let vault_b = match pool.metadata.token_b.vault {
        Some(v) => v,
        None => return None,
    };
    let kind_matches = match (&pool.metadata.protocol, &pool.data) {
        (DexProtocol::Whirlpool, PoolData::Clmm(_)) => true,
        (DexProtocol::Meteora, PoolData::Dlmm(_)) => true,
        _ => false,
    };
    if !kind_matches {
        return None;
    }
    let mut keys: Vec<PubkeyBytes> = Vec::new();
    keys.push(pool.metadata.pubkey);
    keys.push(vault_a);
    keys.push(vault_b);
    Some(keys)
}

/// Whether all three first-step accounts were found.
pub open spec fn all_fetched(accounts: Seq<Option<Vec<u8>>>) -> bool {
    accounts.len() == 3 && accounts[0] is Some && accounts[1] is Some && accounts[2] is Some
}

/// The reserve a vault account gives for `mint`, if it is a token account of that mint.
pub open spec fn vault_reserve(data: Seq<u8>, mint: PubkeyBytes, current: Option<u128>) -> Option<u128> {
    if data.len() >= 72 && field(data, 0, 32) == mint.bytes() {
        Some(uint_at(data, 64, 8) as u128)
    } else {
        current
    }
}

/// Reserve read from an optional vault account.
fn reserve_from_vault(data: Option<&Vec<u8>>, mint: &PubkeyBytes, current: Option<u128>) -> (r: Option<u128>)
    ensures
        r == match data {
            Some(d) => vault_reserve(d@, *mint, current),
            None => current,
        },
{
    match data {
        Some(d) => match parse_token_vault_amount(d.as_slice()) {
            Ok(vault) => if vault.mint == *mint { Some(vault.amount) } else { current },
            Err(_) => current,
        },
        None => current,
    }
}

/// Whether the Whirlpool account `d` names the pool's mints and vaults.
pub open spec fn whirlpool_matches(pool: Pool, d: Seq<u8>) -> bool {
    &&& field(d, 101, 32) == pool.metadata.token_a.mint.bytes()
    &&& field(d, 181, 32) == pool.metadata.token_b.mint.bytes()
    &&& field(d, 133, 32) == pool.metadata.token_a.vault->0.bytes()
    &&& field(d, 213, 32) == pool.metadata.token_b.vault->0.bytes()
}

/// First hydration step of a Whirlpool pool from its account and vault
/// accounts: when the account names the pool's mints and vaults, its
/// liquidity, price, current tick, tick spacing and fee rate are taken;
/// each vault that is a token account of its mint gives the reserve. A pool
/// account too short to decode fails the step.
pub fn apply_whirlpool_accounts(pool: &Pool, accounts: &Vec<Option<Vec<u8>>>) -> (r: Result<Pool, AccountDataError>)
    ensures
        !(hydratable(*pool) && pool.data is Clmm && all_fetched(accounts@)) ==> (r matches Ok(p) && same_pool(p, *pool)),
        hydratable(*pool) && pool.data is Clmm && all_fetched(accounts@) ==> {
            let d = accounts@[0]->0@;
            let va = accounts@[1]->0@;
            let vb = accounts@[2]->0@;
            let st = pool.data->Clmm_0;
            let m = whirlpool_matches(*pool, d);
            if d.len() < 245 {
                r == Err::<Pool, AccountDataError>(AccountDataError::TooShort { len: d.len() as usize })
            } else {
                r matches Ok(p) && (p.data matches PoolData::Clmm(ns) && {
                    &&& p.metadata == pool.metadata
                    &&& p.tvl_bits == pool.tvl_bits
                    &&& p.last_updated_slot == pool.last_updated_slot
                    &&& p.fee_rate == if m { uint_at(d, 45, 2) as u32 } else { pool.fee_rate }
                    &&& ns.liquidity == if m { Some(uint_at(d, 49, 16) as u128) } else { st.liquidity }
                    &&& ns.sqrt_price_x64 == if m { Some(uint_at(d, 65, 16) as u128) } else { st.sqrt_price_x64 }
                    &&& ns.current_tick_index == if m { Some(int_at(d, 81, 4) as i32) } else { st.current_tick_index }
                    &&& ns.tick_spacing == if m { uint_at(d, 41, 2) as u16 } else { st.tick_spacing }
                    &&& ns.reserve_a == vault_reserve(va, pool.metadata.token_a.mint, st.reserve_a)
                    &&& ns.reserve_b == vault_reserve(vb, pool.metadata.token_b.mint, st.reserve_b)
                    &&& ns.initialized_ticks@ == st.initialized_ticks@
                })
            }
        },
{
    let unchanged = pool.duplicate();
    let (vault_a, vault_b) = match (pool.metadata.token_a.vault, pool.metadata.token_b.vault) {
        (Some(a), Some(b)) => (a, b),
        _ => return Ok(unchanged),
    };
    let state = match &pool.data {
        PoolData::Clmm(st) => st,
        _ => return Ok(unchanged),
    };
    match pool.metadata.protocol {
        DexProtocol::Whirlpool => {},
        _ => return Ok(unchanged),
    }
    if accounts.len() != 3 {
        return Ok(unchanged);
    }
    let (pool_data, vault_a_data, vault_b_data) = match (&accounts[0], &accounts[1], &accounts[2]) {
        (Some(p), Some(a), Some(b)) => (p, a, b),
        _ => return Ok(unchanged),
    };
    let onchain = match parse_whirlpool_account(pool_data.as_slice()) {
        Ok(w) => w,
        Err(e) => return Err(e),
    };
    let matches_api = onchain.token_mint_a == pool.metadata.token_a.mint
        && onchain.token_mint_b == pool.metadata.token_b.mint
        && onchain.token_vault_a == vault_a
        && onchain.token_vault_b == vault_b;
    let mut liquidity = state.liquidity;
    let mut sqrt_price_x64 = state.sqrt_price_x64;
    let mut current_tick_index = state.current_tick_index;
    let mut tick_spacing = state.tick_spacing;
    let mut fee_rate = pool.fee_rate;
    if matches_api {
        liquidity = Some(onchain.liquidity);
        sqrt_price_x64 = Some(onchain.sqrt_price_x64);
        current_tick_index = Some(onchain.current_tick_index);
        tick_spacing = onchain.tick_spacing;
        fee_rate = onchain.fee_rate;
    }
    let reserve_a = reserve_from_vault(Some(vault_a_data), &pool.metadata.token_a.mint, state.reserve_a);
    let reserve_b = reserve_from_vault(Some(vault_b_data), &pool.metadata.token_b.mint, state.reserve_b);
    let new_state = ClmmState {
        liquidity,
        sqrt_price_x64,
        current_tick_index,
        tick_spacing,
        reserve_a,
        reserve_b,
        initialized_ticks: copy_ticks(&state.initialized_ticks),
    };
    Ok(Pool {
        metadata: unchanged.metadata,
        data: PoolData::Clmm(new_state),
        fee_rate,
        tvl_bits: pool.tvl_bits,
        last_updated_slot: pool.last_updated_slot,
    })
}

fn copy_ticks(items: &Vec<ClmmTick>) -> (r: Vec<ClmmTick>)
    ensures
        r@ == items@,
{
    let mut out: Vec<ClmmTick> = Vec::new();
    let mut i: usize = 0;
    while i < items.len()
        invariant
            i <= items@.len(),
            out@ == items@.subrange(0, i as int),
        decreases items@.len() - i,
    {
        out.push(items[i]);
        proof {
            assert(items@.subrange(0, i + 1) =~= items@.subrange(0, i as int).push(items@[i as int]));
        }
        i = i + 1;
    }
    proof {
        assert(items@.subrange(0, items@.len() as int) =~= items@);
    }
    out
}


/// Start ticks of the tick arrays around the one holding `current`: the
/// arrays at offsets -2..=2, those whose start fits in `i32`.
pub open spec fn tick_array_starts(current: i32, tick_spacing: u16, k: nat) -> Seq<i32>
    decreases k,
{
    if k == 0 {
        Seq::empty()
    } else {
        let prev = tick_array_starts(current, tick_spacing, (k - 1) as nat);
        let offset = k - 1 - 2;
        let start = tick_array_start_spec(current, tick_spacing) + offset * ticks_per_array(tick_spacing);
        if i32::MIN <= start <= i32::MAX { prev.push(start as i32) } else { prev }
    }
}

/// The address `derive_whirlpool_tick_array_pda` gives for a start tick, if any.
pub open spec fn tick_array_address(whirlpool: PubkeyBytes, start: i32) -> Option<Seq<u8>> {
    let program = WHIRLPOOL_PROGRAM_ID.spec_bytes();
    if !is_address(program) {
        None
    } else {
        match program_address_of(seq![tick_array_seed(), whirlpool.bytes(), i32_decimal(start)], address_bytes(program)) {
            Some((a, _)) => Some(a),
            None => None,
        }
    }
}

/// Addresses of the tick arrays starting at `starts`, skipping those that
/// cannot be derived.
pub open spec fn tick_array_addresses(whirlpool: PubkeyBytes, starts: Seq<i32>) -> Seq<Seq<u8>>
    decreases starts.len(),
{
    if starts.len() == 0 {
        Seq::empty()
    } else {
        let prev = tick_array_addresses(whirlpool, starts.drop_last());
        match tick_array_address(whirlpool, starts.last()) {
            Some(a) => prev.push(a),
            None => prev,
        }
    }
}

/// Whether the tick walk of a concentrated-liquidity state is defined: a
/// positive tick spacing and a current tick whose array start fits in `i32`.
pub open spec fn tick_walk_defined(st: ClmmState) -> bool {
    st.current_tick_index matches Some(t) ==> st.tick_spacing > 0 && tick_array_start_spec(t, st.tick_spacing) >= i32::MIN
}

/// The tick-array accounts of the second Whirlpool hydration step: the
/// arrays at offsets -2..=2 around the current tick; none when the current
/// tick is unknown.
pub fn whirlpool_tick_array_addresses(pool: &Pool) -> (r: Vec<PubkeyBytes>)
    requires
        pool.data matches PoolData::Clmm(st) ==> tick_walk_defined(st),
    ensures
        match pool.data {
            PoolData::Clmm(st) => match st.current_tick_index {
                Some(t) => r@.map_values(|pk: PubkeyBytes| pk.bytes())
                    == tick_array_addresses(pool.metadata.pubkey, tick_array_starts(t, st.tick_spacing, 5)),
                None => r@.len() == 0,
            },
            _ => r@.len() == 0,
        },
{
    let mut out: Vec<PubkeyBytes> = Vec::new();
    let state = match &pool.data {
        PoolData::Clmm(st) => st,
        _ => return out,
    };
    let current = match state.current_tick_index {
        Some(t) => t,
        None => return out,
    };
    let start_tick = whirlpool_tick_array_start_tick(current, state.tick_spacing);
    let ticks_per: i32 = 88 * state.tick_spacing as i32;
    let ghost starts = Seq::<i32>::empty();
    let mut k: i32 = 0;
    while k < 5
        invariant
            0 <= k <= 5,
            start_tick == tick_array_start_spec(current, state.tick_spacing),
            ticks_per == ticks_per_array(state.tick_spacing),
            state.tick_spacing > 0,
            out@.map_values(|pk: PubkeyBytes| pk.bytes())
                == tick_array_addresses(pool.metadata.pubkey, tick_array_starts(current, state.tick_spacing, k as nat)),
        decreases 5 - k,
    {
        let offset: i32 = k - 2;
        proof {
            assert(-2 * ticks_per <= offset * ticks_per <= 2 * ticks_per) by (nonlinear_arith)
                requires
                    -2 <= offset <= 2,
                    0 < ticks_per <= 88 * 65535,
            ;
        }
        let ghost prev_out = out@;
        let ghost prev_starts = tick_array_starts(current, state.tick_spacing, k as nat);
        match start_tick.checked_add(offset * ticks_per) {
            Some(start) => {
                proof {
                    assert(tick_array_starts(current, state.tick_spacing, (k + 1) as nat) == prev_starts.push(start));
                    assert(prev_starts.push(start).drop_last() =~= prev_starts);
                }
                match derive_whirlpool_tick_array_pda(pool.metadata.pubkey, start) {
                    Ok(address) => {
                        out.push(address);
                        proof {
                            assert(out@.map_values(|pk: PubkeyBytes| pk.bytes())
                                =~= prev_out.map_values(|pk: PubkeyBytes| pk.bytes()).push(address.bytes()));
                        }
                    },
                    Err(_) => {},
                }
            },
            None => {
                proof {
                    assert(tick_array_starts(current, state.tick_spacing, (k + 1) as nat) == prev_starts);
                }
            },
        }
        k = k + 1;
    }
    out
}


/// Whether every initialized tick of a long-enough tick-array account has an
/// index that fits in `i32`.
pub fn tick_array_fits(data: &[u8], tick_spacing: u16) -> (r: bool)
    requires
        data@.len() >= whirlpool_tick_array_min_len(),
    ensures
        r == whirlpool_tick_indices_fit(data@, tick_spacing),
{
    let start = match read_i32(data, 8) {
        Ok(v) => v,
        Err(_) => return false,
    };
    let mut i: usize = 0;
    while i < 88
        invariant
            i <= 88,
            data@.len() >= whirlpool_tick_array_min_len(),
            start == int_at(data@, 8, 4),
            forall|j: int| 0 <= j < i && data@[whirlpool_tick_offset(j)] != 0 ==>
                int_at(data@, 8, 4) + j * tick_spacing <= i32::MAX,
        decreases 88 - i,
    {
        let offset = WHIRLPOOL_TICK_ARRAY_HEADER_SIZE + i * WHIRLPOOL_TICK_SIZE;
        if data[offset] != 0 {
            proof {
                assert(i * tick_spacing <= 88 * 65535) by (nonlinear_arith)
                    requires
                        i < 88,
                        tick_spacing <= 65535,
                ;
            }
            let index = start as i64 + (i as i64) * (tick_spacing as i64);
            if index > 0x7fff_ffff {
                proof {
                    assert(offset == whirlpool_tick_offset(i as int));
                    assert(data@[whirlpool_tick_offset(i as int)] != 0);
                    assert(!(int_at(data@, 8, 4) + i * tick_spacing <= i32::MAX));
                }
                return false;
            }
        }
        i = i + 1;
    }
    true
}

/// The ticks decoded from the fetched tick-array accounts, in order; an
/// absent, short or out-of-range account contributes none.
pub open spec fn fetched_ticks(arrays: Seq<Option<Vec<u8>>>, tick_spacing: u16) -> Seq<ClmmTick>
    decreases arrays.len(),
{
    if arrays.len() == 0 {
        Seq::empty()
    } else {
        let prev = fetched_ticks(arrays.drop_last(), tick_spacing);
        match arrays.last() {
            Some(d) => if d@.len() >= whirlpool_tick_array_min_len() && whirlpool_tick_indices_fit(d@, tick_spacing) {
                prev + whirlpool_ticks(d@, tick_spacing, 88)
            } else {
                prev
            },
            None => prev,
        }
    }
}

/// Second Whirlpool hydration step: the initialized ticks become those of
/// the fetched tick arrays, one per tick index, sorted by index. A pool whose
/// current tick is unknown is left as it is.
pub fn apply_whirlpool_tick_arrays(pool: &Pool, arrays: &Vec<Option<Vec<u8>>>) -> (r: Pool)
    ensures
        r.metadata == pool.metadata,
        r.fee_rate == pool.fee_rate,
        r.tvl_bits == pool.tvl_bits,
        r.last_updated_slot == pool.last_updated_slot,
        match pool.data {
            PoolData::Clmm(st) => if st.current_tick_index is Some {
                r.data matches PoolData::Clmm(ns) && {
                    &&& ns.liquidity == st.liquidity && ns.sqrt_price_x64 == st.sqrt_price_x64
                    &&& ns.current_tick_index == st.current_tick_index && ns.tick_spacing == st.tick_spacing
                    &&& ns.reserve_a == st.reserve_a && ns.reserve_b == st.reserve_b
                    &&& ticks_by_index(fetched_ticks(arrays@, st.tick_spacing), ns.initialized_ticks@)
                }
            } else {
                same_pool(r, *pool)
            },
            _ => same_pool(r, *pool),
        },
{
    let unchanged = pool.duplicate();
    let state = match &pool.data {
        PoolData::Clmm(st) => st,
        _ => return unchanged,
    };
    if state.current_tick_index.is_none() {
        return unchanged;
    }
    let mut ticks: Vec<ClmmTick> = Vec::new();
    let mut i: usize = 0;
    proof {
        assert(arrays@.subrange(0, 0) =~= Seq::<Option<Vec<u8>>>::empty());
    }
    while i < arrays.len()
        invariant
            i <= arrays@.len(),
            ticks_by_index(fetched_ticks(arrays@.subrange(0, i as int), state.tick_spacing), ticks@),
        decreases arrays@.len() - i,
    {
        let ghost c = fetched_ticks(arrays@.subrange(0, i as int), state.tick_spacing);
        proof {
            assert(arrays@.subrange(0, i + 1).drop_last() =~= arrays@.subrange(0, i as int));
            assert(arrays@.subrange(0, i + 1).last() == arrays@[i as int]);
        }
        match &arrays[i] {
            Some(data) => {
                if data.len() >= 12 + 113 * 88 && tick_array_fits(data.as_slice(), state.tick_spacing) {
                    match parse_whirlpool_tick_array(data.as_slice(), state.tick_spacing) {
                        Ok(more) => {
                            merge_ticks(&mut ticks, &more, Ghost(c));
                        },
                        Err(_) => {},
                    }
                } else {
                    proof {
                        assert(fetched_ticks(arrays@.subrange(0, i + 1), state.tick_spacing) == c);
                    }
                }
            },
            None => {},
        }
        i = i + 1;
    }
    proof {
        assert(arrays@.subrange(0, arrays@.len() as int) =~= arrays@);
    }
    Pool {
        metadata: unchanged.metadata,
        data: PoolData::Clmm(ClmmState {
            liquidity: state.liquidity,
            sqrt_price_x64: state.sqrt_price_x64,
            current_tick_index: state.current_tick_index,
            tick_spacing: state.tick_spacing,
            reserve_a: state.reserve_a,
            reserve_b: state.reserve_b,
            initialized_ticks: ticks,
        }),
        fee_rate: pool.fee_rate,
        tvl_bits: pool.tvl_bits,
        last_updated_slot: pool.last_updated_slot,
    }
}


/// First hydration step of a Meteora pool: the pair account gives the active
/// bin id (none when it is too short), and each vault that is a token
/// account of its mint gives the reserve.
pub fn apply_meteora_accounts(pool: &Pool, accounts: &Vec<Option<Vec<u8>>>) -> (r: Pool)
    ensures
        !(hydratable(*pool) && pool.data is Dlmm && accounts@.len() == 3) ==> same_pool(r, *pool),
        hydratable(*pool) && pool.data is Dlmm && accounts@.len() == 3 ==> {
            let st = pool.data->Dlmm_0;
            &&& r.metadata == pool.metadata
            &&& r.fee_rate == pool.fee_rate
            &&& r.tvl_bits == pool.tvl_bits
            &&& r.last_updated_slot == pool.last_updated_slot
            &&& r.data matches PoolData::Dlmm(ns) && {
                &&& ns.active_bin_id == match accounts@[0] {
                    Some(d) => if d@.len() >= 80 { Some(int_at(d@, 76, 4) as i32) } else { None },
                    None => st.active_bin_id,
                }
                &&& ns.reserve_a == match accounts@[1] {
                    Some(d) => vault_reserve(d@, pool.metadata.token_a.mint, st.reserve_a),
                    None => st.reserve_a,
                }
                &&& ns.reserve_b == match accounts@[2] {
                    Some(d) => vault_reserve(d@, pool.metadata.token_b.mint, st.reserve_b),
                    None => st.reserve_b,
                }
                &&& ns.bin_step == st.bin_step && ns.active_price_bits == st.active_price_bits
                &&& ns.bins@ == st.bins@
            }
        },
{
    let unchanged = pool.duplicate();
    if pool.metadata.token_a.vault.is_none() || pool.metadata.token_b.vault.is_none() {
        return unchanged;
    }
    let state = match &pool.data {
        PoolData::Dlmm(st) => st,
        _ => return unchanged,
    };
    match pool.metadata.protocol {
        DexProtocol::Meteora => {},
        _ => return unchanged,
    }
    if accounts.len() != 3 {
        return unchanged;
    }
    let active_bin_id = match &accounts[0] {
        Some(d) => parse_meteora_active_id(d.as_slice()),
        None => state.active_bin_id,
    };
    let reserve_a = match &accounts[1] {
        Some(d) => reserve_from_vault(Some(d), &pool.metadata.token_a.mint, state.reserve_a),
        None => state.reserve_a,
    };
    let reserve_b = match &accounts[2] {
        Some(d) => reserve_from_vault(Some(d), &pool.metadata.token_b.mint, state.reserve_b),
        None => state.reserve_b,
    };
    Pool {
        metadata: unchanged.metadata,
        data: PoolData::Dlmm(DlmmState {
            active_bin_id,
            bin_step: state.bin_step,
            active_price_bits: state.active_price_bits,
            reserve_a,
            reserve_b,
            bins: copy_bins(&state.bins),
        }),
        fee_rate: pool.fee_rate,
        tvl_bits: pool.tvl_bits,
        last_updated_slot: pool.last_updated_slot,
    }
}

fn copy_bins(items: &Vec<DlmmBin>) -> (r: Vec<DlmmBin>)
    ensures
        r@ == items@,
{
    let mut out: Vec<DlmmBin> = Vec::new();
    let mut i: usize = 0;
    while i < items.len()
        invariant
            i <= items@.len(),
            out@ == items@.subrange(0, i as int),
        decreases items@.len() - i,
    {
        out.push(items[i]);
        proof {
            assert(items@.subrange(0, i + 1) =~= items@.subrange(0, i as int).push(items@[i as int]));
        }
        i = i + 1;
    }
    proof {
        assert(items@.subrange(0, items@.len() as int) =~= items@);
    }
    out
}

/// The address `derive_meteora_bin_array_pda` gives for a bin-array index, if any.
pub open spec fn bin_array_address(lb_pair: PubkeyBytes, index: i64) -> Option<Seq<u8>> {
    let program = METEORA_DLMM_PROGRAM_ID.spec_bytes();
    if !is_address(program) {
        None
    } else {
        match program_address_of(seq![bin_array_seed(), lb_pair.bytes(), le_bytes((index as u64) as nat, 8)], address_bytes(program)) {
            Some((a, _)) => Some(a),
            None => None,
        }
    }
}

/// Addresses of the bin arrays at offsets `-3 .. -3 + k` around `center`,
/// skipping those that cannot be derived.
pub open spec fn bin_array_addresses(lb_pair: PubkeyBytes, center: int, k: nat) -> Seq<Seq<u8>>
    decreases k,
{
    if k == 0 {
        Seq::empty()
    } else {
        let prev = bin_array_addresses(lb_pair, center, (k - 1) as nat);
        match bin_array_address(lb_pair, (center + k - 1 - 3) as i64) {
            Some(a) => prev.push(a),
            None => prev,
        }
    }
}

/// The bin-array accounts of the second Meteora hydration step: the arrays
/// at offsets -3..=3 around the one holding the active bin; none when the
/// active bin is unknown.
pub fn meteora_bin_array_addresses(pool: &Pool) -> (r: Vec<PubkeyBytes>)
    ensures
        match pool.data {
            PoolData::Dlmm(st) => match st.active_bin_id {
                Some(id) => r@.map_values(|pk: PubkeyBytes| pk.bytes()) == bin_array_addresses(
                    pool.metadata.pubkey, id as int / METEORA_BINS_PER_ARRAY as int, 7),
                None => r@.len() == 0,
            },
            _ => r@.len() == 0,
        },
{
    let mut out: Vec<PubkeyBytes> = Vec::new();
    let state = match &pool.data {
        PoolData::Dlmm(st) => st,
        _ => return out,
    };
    let active = match state.active_bin_id {
        Some(id) => id,
        None => return out,
    };
    let center = meteora_bin_array_index(active);
    let mut k: i64 = 0;
    while k < 7
        invariant
            0 <= k <= 7,
            center == active as int / METEORA_BINS_PER_ARRAY as int,
            out@.map_values(|pk: PubkeyBytes| pk.bytes()) == bin_array_addresses(pool.metadata.pubkey, center as int, k as nat),
        decreases 7 - k,
    {
        let ghost prev_out = out@;
        match derive_meteora_bin_array_pda(pool.metadata.pubkey, center + k - 3) {
            Ok(address) => {
                out.push(address);
                proof {
                    assert(out@.map_values(|pk: PubkeyBytes| pk.bytes())
                        =~= prev_out.map_values(|pk: PubkeyBytes| pk.bytes()).push(address.bytes()));
                }
            },
            Err(_) => {},
        }
        k = k + 1;
    }
    out
}

/// The bins decoded from the fetched bin-array accounts of `lb_pair`, in
/// order; an absent or undecodable account contributes none.
pub open spec fn fetched_bins(arrays: Seq<Option<Vec<u8>>>, lb_pair: PubkeyBytes) -> Seq<DlmmBin>
    decreases arrays.len(),
{
    if arrays.len() == 0 {
        Seq::empty()
    } else {
        let prev = fetched_bins(arrays.drop_last(), lb_pair);
        match arrays.last() {
            Some(d) => match meteora_bin_array_spec(d@, lb_pair) {
                Ok(bins) => prev + bins,
                Err(_) => prev,
            },
            None => prev,
        }
    }
}

/// Second Meteora hydration step: the bins become those of the fetched bin
/// arrays, one per bin id, sorted by id. A pool whose active bin is unknown
/// is left as it is.
pub fn apply_meteora_bin_arrays(pool: &Pool, arrays: &Vec<Option<Vec<u8>>>) -> (r: Pool)
    ensures
        r.metadata == pool.metadata,
        r.fee_rate == pool.fee_rate,
        r.tvl_bits == pool.tvl_bits,
        r.last_updated_slot == pool.last_updated_slot,
        match pool.data {
            PoolData::Dlmm(st) => if st.active_bin_id is Some {
                r.data matches PoolData::Dlmm(ns) && {
                    &&& ns.active_bin_id == st.active_bin_id && ns.bin_step == st.bin_step
                    &&& ns.active_price_bits == st.active_price_bits
                    &&& ns.reserve_a == st.reserve_a && ns.reserve_b == st.reserve_b
                    &&& bins_by_id(fetched_bins(arrays@, pool.metadata.pubkey), ns.bins@)
                }
            } else {
                same_pool(r, *pool)
            },
            _ => same_pool(r, *pool),
        },
{
    let unchanged = pool.duplicate();
    let state = match &pool.data {
        PoolData::Dlmm(st) => st,
        _ => return unchanged,
    };
    if state.active_bin_id.is_none() {
        return unchanged;
    }
    let mut bins: Vec<DlmmBin> = Vec::new();
    let mut i: usize = 0;
    proof {
        assert(arrays@.subrange(0, 0) =~= Seq::<Option<Vec<u8>>>::empty());
    }
    while i < arrays.len()
        invariant
            i <= arrays@.len(),
            bins_by_id(fetched_bins(arrays@.subrange(0, i as int), pool.metadata.pubkey), bins@),
        decreases arrays@.len() - i,
    {
        let ghost c = fetched_bins(arrays@.subrange(0, i as int), pool.metadata.pubkey);
        proof {
            assert(arrays@.subrange(0, i + 1).drop_last() =~= arrays@.subrange(0, i as int));
            assert(arrays@.subrange(0, i + 1).last() == arrays@[i as int]);
        }
        match &arrays[i] {
            Some(data) => {
                match parse_meteora_bin_array(data.as_slice(), pool.metadata.pubkey) {
                    Ok(more) => {
                        merge_bins(&mut bins, &more, Ghost(c));
                    },
                    Err(_) => {},
                }
            },
            None => {},
        }
        i = i + 1;
    }
    proof {
        assert(arrays@.subrange(0, arrays@.len() as int) =~= arrays@);
    }
    Pool {
        metadata: unchanged.metadata,
        data: PoolData::Dlmm(DlmmState {
            active_bin_id: state.active_bin_id,
            bin_step: state.bin_step,
            active_price_bits: state.active_price_bits,
            reserve_a: state.reserve_a,
            reserve_b: state.reserve_b,
            bins,
        }),
        fee_rate: pool.fee_rate,
        tvl_bits: pool.tvl_bits,
        last_updated_slot: pool.last_updated_slot,
    }
}

} // verus!
