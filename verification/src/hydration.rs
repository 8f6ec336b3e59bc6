use vstd::prelude::*;
use vstd::arithmetic::power2::*;
use crate::account_data::{
    field, le_value, signed_value, read_spec, read_pubkey, read_u16, read_u64, read_u128,
    read_i32, read_i64, read_i128, pubkey_spec,
};
use crate::error::AccountDataError;
use crate::pool::{ClmmTick, DlmmBin, PubkeyBytes};

verus! {

/// Number of ticks stored in one Whirlpool tick-array account.
pub const WHIRLPOOL_TICK_ARRAY_SIZE: i32 = 88;
/// Serialized size of one Whirlpool tick.
pub const WHIRLPOOL_TICK_SIZE: usize = 113;
/// Bytes before the first tick of a Whirlpool tick-array account.
pub const WHIRLPOOL_TICK_ARRAY_HEADER_SIZE: usize = 12;
/// Number of bins stored in one Meteora bin-array account.
pub const METEORA_BINS_PER_ARRAY: i32 = 70;
/// Anchor discriminator of a Meteora bin-array account.
pub const METEORA_BIN_ARRAY_DISCRIMINATOR: [u8; 8] = [92, 142, 92, 220, 5, 148, 70, 181];
/// Bytes before the first bin of a Meteora bin-array account.
pub const METEORA_BIN_ARRAY_HEADER_SIZE: usize = 56;
/// Serialized size of one Meteora bin.
pub const METEORA_BIN_SIZE: usize = 144;

/// Mint and balance of an SPL token account.
#[derive(Debug, Clone, Copy, PartialEq, Eq)]
pub struct TokenVaultAmount {
    pub mint: PubkeyBytes,
    pub amount: u128,
}

/// Core fields of an Orca Whirlpool account.
#[derive(Debug, Clone, Copy, PartialEq, Eq)]
pub struct WhirlpoolAccountState {
    pub tick_spacing: u16,
    pub fee_rate: u32,
    pub liquidity: u128,
    pub sqrt_price_x64: u128,
    pub current_tick_index: i32,
    pub token_mint_a: PubkeyBytes,
    pub token_vault_a: PubkeyBytes,
    pub token_mint_b: PubkeyBytes,
    pub token_vault_b: PubkeyBytes,
}

/// Unsigned little-endian field of `width` bytes at `offset`.
pub open spec fn uint_at(data: Seq<u8>, offset: int, width: int) -> nat {
    le_value(field(data, offset, width))
}

/// Signed little-endian field of `width` bytes at `offset`.
pub open spec fn int_at(data: Seq<u8>, offset: int, width: int) -> int {
    signed_value(uint_at(data, offset, width), (8 * width) as nat)
}

/// Decodes an SPL token account: mint at offset 0, amount (`u64`) at offset 64.
pub fn parse_token_vault_amount(data: &[u8]) -> (r: Result<TokenVaultAmount, AccountDataError>)
    ensures
        data@.len() < 72 ==> r == Err::<TokenVaultAmount, AccountDataError>(
            AccountDataError::TooShort { len: data@.len() as usize },
        ),
        data@.len() >= 72 ==> (r matches Ok(t) && t.mint.bytes() == field(data@, 0, 32) && t.amount
            == uint_at(data@, 64, 8)),
{
    if data.len() < 72 {
        return Err(AccountDataError::TooShort { len: data.len() });
    }
    let mint = match read_pubkey(data, 0) {
        Ok(m) => m,
        Err(e) => return Err(e),
    };
    let amount = match read_u64(data, 64) {
        Ok(a) => a as u128,
        Err(e) => return Err(e),
    };
    Ok(TokenVaultAmount { mint, amount })
}

/// Decodes the fields of a Whirlpool account that quoting needs. The account
/// is Borsh-serialized after an 8-byte discriminator, with no padding.
pub fn parse_whirlpool_account(data: &[u8]) -> (r: Result<WhirlpoolAccountState, AccountDataError>)
    ensures
        data@.len() < 245 ==> r == Err::<WhirlpoolAccountState, AccountDataError>(
            AccountDataError::TooShort { len: data@.len() as usize },
        ),
        data@.len() >= 245 ==> (r matches Ok(w) && {
            &&& w.tick_spacing == uint_at(data@, 41, 2)
            &&& w.fee_rate == uint_at(data@, 45, 2)
            &&& w.liquidity == uint_at(data@, 49, 16)
            &&& w.sqrt_price_x64 == uint_at(data@, 65, 16)
            &&& w.current_tick_index == int_at(data@, 81, 4)
            &&& w.token_mint_a.bytes() == field(data@, 101, 32)
            &&& w.token_vault_a.bytes() == field(data@, 133, 32)
            &&& w.token_mint_b.bytes() == field(data@, 181, 32)
            &&& w.token_vault_b.bytes() == field(data@, 213, 32)
        }),
{
    if data.len() < 245 {
        return Err(AccountDataError::TooShort { len: data.len() });
    }
    let tick_spacing = match read_u16(data, 41) { Ok(v) => v, Err(e) => return Err(e) };
    let fee_rate = match read_u16(data, 45) { Ok(v) => v as u32, Err(e) => return Err(e) };
    let liquidity = match read_u128(data, 49) { Ok(v) => v, Err(e) => return Err(e) };
    let sqrt_price_x64 = match read_u128(data, 65) { Ok(v) => v, Err(e) => return Err(e) };
    let current_tick_index = match read_i32(data, 81) { Ok(v) => v, Err(e) => return Err(e) };
    let token_mint_a = match read_pubkey(data, 101) { Ok(v) => v, Err(e) => return Err(e) };
    let token_vault_a = match read_pubkey(data, 133) { Ok(v) => v, Err(e) => return Err(e) };
    let token_mint_b = match read_pubkey(data, 181) { Ok(v) => v, Err(e) => return Err(e) };
    let token_vault_b = match read_pubkey(data, 213) { Ok(v) => v, Err(e) => return Err(e) };
    Ok(WhirlpoolAccountState {
        tick_spacing,
        fee_rate,
        liquidity,
        sqrt_price_x64,
        current_tick_index,
        token_mint_a,
        token_vault_a,
        token_mint_b,
        token_vault_b,
    })
}

/// Reads the Meteora `LbPair.active_id` (`i32` at offset 76); `None` when the
/// data is too short.
pub fn parse_meteora_active_id(data: &[u8]) -> (r: Option<i32>)
    ensures
        data@.len() < 80 ==> r is None,
        data@.len() >= 80 ==> r == Some(int_at(data@, 76, 4) as i32),
{
    match read_i32(data, 76) {
        Ok(v) => Some(v),
        Err(_) => None,
    }
}

/// Index of the Meteora bin array that holds bin `bin_id` (floor division by 70).
pub fn meteora_bin_array_index(bin_id: i32) -> (r: i64)
    ensures
        r == bin_id as int / METEORA_BINS_PER_ARRAY as int,
{
    if bin_id >= 0 {
        (bin_id / METEORA_BINS_PER_ARRAY) as i64
    } else {
        let m = ((-(bin_id as i64)) - 1) as u64;
        -((m / 70) as i64) - 1
    }
}

/// Number of ticks covered by one Whirlpool tick array at `tick_spacing`.
pub open spec fn ticks_per_array(tick_spacing: u16) -> int {
    WHIRLPOOL_TICK_ARRAY_SIZE * tick_spacing
}

proof fn lemma_floor_div_negative(t: int, d: int)
    requires
        t < 0,
        d > 0,
    ensures
        t / d == -((-t - 1) / d) - 1,
{
    let k = (-t - 1) / d;
    let r = (-t - 1) % d;
    vstd::arithmetic::div_mod::lemma_fundamental_div_mod(-t - 1, d);
    vstd::arithmetic::div_mod::lemma_mod_bound(-t - 1, d);
    assert(t == (-k - 1) * d + (d - r - 1)) by (nonlinear_arith)
        requires
            -t - 1 == d * k + r,
    ;
    vstd::arithmetic::div_mod::lemma_fundamental_div_mod_converse(t, d, -k - 1, d - r - 1);
}

/// First tick index of the Whirlpool tick array that holds `tick_index`.
pub open spec fn tick_array_start_spec(tick_index: i32, tick_spacing: u16) -> int {
    (tick_index as int / ticks_per_array(tick_spacing)) * ticks_per_array(tick_spacing)
}

/// Start tick of the tick array containing `tick_index`: `tick_index` rounded
/// down to a multiple of `88 * tick_spacing`.
pub fn whirlpool_tick_array_start_tick(tick_index: i32, tick_spacing: u16) -> (r: i32)
    requires
        tick_spacing > 0,
        tick_array_start_spec(tick_index, tick_spacing) >= i32::MIN,
    ensures
        r == tick_array_start_spec(tick_index, tick_spacing),
{
    let per_array: i64 = WHIRLPOOL_TICK_ARRAY_SIZE as i64 * tick_spacing as i64;
    let t = tick_index as i64;
    let q: i64 = if t >= 0 {
        ((t as u64) / (per_array as u64)) as i64
    } else {
        let m = ((-t) - 1) as u64;
        -((m / (per_array as u64)) as i64) - 1
    };
    proof {
        if t >= 0 {
            assert(q == t as int / per_array as int);
        } else {
            lemma_floor_div_negative(t as int, per_array as int);
        }
        vstd::arithmetic::div_mod::lemma_fundamental_div_mod(t as int, per_array as int);
        vstd::arithmetic::div_mod::lemma_mod_bound(t as int, per_array as int);
        assert(q * per_array <= t) by (nonlinear_arith)
            requires
                t == per_array * q + t % per_array,
                0 <= t % per_array,
        ;
        assert(q * per_array >= i32::MIN);
        assert(q * per_array == tick_array_start_spec(tick_index, tick_spacing));
    }
    (q * per_array) as i32
}

/// Offset of the `i`-th tick inside a Whirlpool tick-array account.
pub open spec fn whirlpool_tick_offset(i: int) -> int {
    WHIRLPOOL_TICK_ARRAY_HEADER_SIZE + i * WHIRLPOOL_TICK_SIZE
}

/// Size below which a Whirlpool tick-array account is rejected.
pub open spec fn whirlpool_tick_array_min_len() -> int {
    WHIRLPOOL_TICK_ARRAY_HEADER_SIZE + WHIRLPOOL_TICK_SIZE * 88
}

/// The initialized ticks among the first `n` slots of a tick-array account, in slot order.
pub open spec fn whirlpool_ticks(data: Seq<u8>, tick_spacing: u16, n: nat) -> Seq<ClmmTick>
    decreases n,
{
    if n == 0 {
        seq![]
    } else {
        let prev = whirlpool_ticks(data, tick_spacing, (n - 1) as nat);
        let i = n - 1;
        let off = whirlpool_tick_offset(i);
        if data[off] == 0 {
            prev
        } else {
            prev.push(
                ClmmTick {
                    index: (int_at(data, 8, 4) + i * tick_spacing) as i32,
                    liquidity_net: int_at(data, off + 1, 16) as i128,
                },
            )
        }
    }
}

/// Every initialized tick's index `start + i * tick_spacing` fits in `i32`.
pub open spec fn whirlpool_tick_indices_fit(data: Seq<u8>, tick_spacing: u16) -> bool {
    forall|i: int|
        0 <= i < 88 && data[whirlpool_tick_offset(i)] != 0 ==> int_at(data, 8, 4) + i * tick_spacing
            <= i32::MAX
}

/// Decodes the initialized ticks of a Whirlpool tick-array account.
pub fn parse_whirlpool_tick_array(data: &[u8], tick_spacing: u16) -> (r: Result<
    Vec<ClmmTick>,
    AccountDataError,
>)
    requires
        data@.len() >= whirlpool_tick_array_min_len() ==> whirlpool_tick_indices_fit(
            data@,
            tick_spacing,
        ),
    ensures
        data@.len() < whirlpool_tick_array_min_len() ==> r == Err::<Vec<ClmmTick>, AccountDataError>(
            AccountDataError::TooShort { len: data@.len() as usize },
        ),
        data@.len() >= whirlpool_tick_array_min_len() ==> (r matches Ok(ticks) && ticks@
            == whirlpool_ticks(data@, tick_spacing, 88)),
{
    let min_len = WHIRLPOOL_TICK_ARRAY_HEADER_SIZE + WHIRLPOOL_TICK_SIZE * 88;
    if data.len() < min_len {
        return Err(AccountDataError::TooShort { len: data.len() });
    }
    let start = match read_i32(data, 8) {
        Ok(v) => v,
        Err(e) => return Err(e),
    };
    let mut ticks: Vec<ClmmTick> = Vec::new();
    let mut i: usize = 0;
    while i < 88
        invariant
            i <= 88,
            data@.len() >= whirlpool_tick_array_min_len(),
            whirlpool_tick_indices_fit(data@, tick_spacing),
            start == int_at(data@, 8, 4),
            ticks@ == whirlpool_ticks(data@, tick_spacing, i as nat),
        decreases 88 - i,
    {
        let offset = WHIRLPOOL_TICK_ARRAY_HEADER_SIZE + i * WHIRLPOOL_TICK_SIZE;
        let initialized = data[offset];
        if initialized != 0 {
            let liquidity_net = match read_i128(data, offset + 1) {
                Ok(v) => v,
                Err(e) => return Err(e),
            };
            assert(data@[whirlpool_tick_offset(i as int)] != 0);
            assert(int_at(data@, 8, 4) + i * tick_spacing <= i32::MAX);
            assert(i * tick_spacing <= 87 * 65535) by (nonlinear_arith)
                requires
                    i < 88,
                    tick_spacing <= 65535,
            ;
            let index = start + (i as i32) * (tick_spacing as i32);
            ticks.push(ClmmTick { index, liquidity_net });
        }
        i = i + 1;
    }
    Ok(ticks)
}

/// The Meteora bin-array discriminator as a sequence.
pub open spec fn meteora_discriminator() -> Seq<u8> {
    seq![92u8, 142u8, 92u8, 220u8, 5u8, 148u8, 70u8, 181u8]
}

/// Offset of the `i`-th bin inside a Meteora bin-array account.
pub open spec fn meteora_bin_offset(i: int) -> int {
    METEORA_BIN_ARRAY_HEADER_SIZE + i * METEORA_BIN_SIZE
}

/// Size below which a Meteora bin-array account is rejected.
pub open spec fn meteora_bin_array_min_len() -> int {
    METEORA_BIN_ARRAY_HEADER_SIZE + METEORA_BIN_SIZE * METEORA_BINS_PER_ARRAY
}

/// The non-empty bins among the first `n` slots of a bin-array account, in
/// slot order; a bin whose id does not fit in `i32` is an error.
pub open spec fn meteora_bins(data: Seq<u8>, n: nat) -> Result<Seq<DlmmBin>, AccountDataError>
    decreases n,
{
    if n == 0 {
        Ok(seq![])
    } else {
        match meteora_bins(data, (n - 1) as nat) {
            Err(e) => Err(e),
            Ok(prev) => {
                let i = n - 1;
                let off = meteora_bin_offset(i);
                let x = uint_at(data, off, 8);
                let y = uint_at(data, off + 8, 8);
                let id = int_at(data, 8, 8) * METEORA_BINS_PER_ARRAY + i;
                if x == 0 && y == 0 {
                    Ok(prev)
                } else if id < i32::MIN || id > i32::MAX {
                    Err(AccountDataError::BinIdOutOfRange)
                } else {
                    Ok(prev.push(DlmmBin { id: id as i32, amount_x: x as u128, amount_y: y as u128 }))
                }
            },
        }
    }
}

proof fn lemma_meteora_bins_error_persists(data: Seq<u8>, n: nat, m: nat)
    requires
        n <= m,
        meteora_bins(data, n) is Err,
    ensures
        meteora_bins(data, m) == meteora_bins(data, n),
    decreases m - n,
{
    if n < m {
        lemma_meteora_bins_error_persists(data, n, (m - 1) as nat);
    }
}

/// What `parse_meteora_bin_array` returns.
pub open spec fn meteora_bin_array_spec(data: Seq<u8>, expected_lb_pair: PubkeyBytes) -> Result<
    Seq<DlmmBin>,
    AccountDataError,
> {
    if data.len() < meteora_bin_array_min_len() {
        Err(AccountDataError::TooShort { len: data.len() as usize })
    } else if data.subrange(0, 8) != meteora_discriminator() {
        Err(AccountDataError::DiscriminatorMismatch)
    } else if field(data, 24, 32) != expected_lb_pair.bytes() {
        Err(AccountDataError::ParentMismatch)
    } else {
        meteora_bins(data, METEORA_BINS_PER_ARRAY as nat)
    }
}

/// Decodes the non-empty bins of a Meteora bin-array account that belongs to
/// `expected_lb_pair`.
pub fn parse_meteora_bin_array(data: &[u8], expected_lb_pair: PubkeyBytes) -> (r: Result<
    Vec<DlmmBin>,
    AccountDataError,
>)
    ensures
        match meteora_bin_array_spec(data@, expected_lb_pair) {
            Ok(bins) => r matches Ok(v) && v@ == bins,
            Err(e) => r matches Err(e2) && e2 == e,
        },
        r matches Ok(v) ==> meteora_bins_shaped(data@, v@),
{
    let min_len = METEORA_BIN_ARRAY_HEADER_SIZE + METEORA_BIN_SIZE * 70;
    if data.len() < min_len {
        return Err(AccountDataError::TooShort { len: data.len() });
    }
    let disc: [u8; 8] = [92, 142, 92, 220, 5, 148, 70, 181];
    let mut k: usize = 0;
    while k < 8
        invariant
            k <= 8,
            data@.len() >= meteora_bin_array_min_len(),
            disc@ == meteora_discriminator(),
            forall|j: int| 0 <= j < k ==> data@[j] == disc@[j],
        decreases 8 - k,
    {
        if data[k] != disc[k] {
            assert(data@.subrange(0, 8)[k as int] != meteora_discriminator()[k as int]);
            return Err(AccountDataError::DiscriminatorMismatch);
        }
        k = k + 1;
    }
    assert(data@.subrange(0, 8) =~= meteora_discriminator());
    let array_index = match read_i64(data, 8) {
        Ok(v) => v,
        Err(e) => return Err(e),
    };
    let lb_pair = match read_pubkey(data, 24) {
        Ok(v) => v,
        Err(e) => return Err(e),
    };
    if lb_pair != expected_lb_pair {
        return Err(AccountDataError::ParentMismatch);
    }
    let mut bins: Vec<DlmmBin> = Vec::new();
    let mut i: usize = 0;
    while i < 70
        invariant
            i <= 70,
            data@.len() >= meteora_bin_array_min_len(),
            array_index == int_at(data@, 8, 8),
            data@.subrange(0, 8) == meteora_discriminator(),
            field(data@, 24, 32) == expected_lb_pair.bytes(),
            meteora_bins(data@, i as nat) == Ok::<Seq<DlmmBin>, AccountDataError>(bins@),
        decreases 70 - i,
    {
        let offset = METEORA_BIN_ARRAY_HEADER_SIZE + i * METEORA_BIN_SIZE;
        let amount_x = match read_u64(data, offset) {
            Ok(v) => v as u128,
            Err(e) => return Err(e),
        };
        let amount_y = match read_u64(data, offset + 8) {
            Ok(v) => v as u128,
            Err(e) => return Err(e),
        };
        if amount_x != 0 || amount_y != 0 {
            let id_wide: i128 = (array_index as i128) * 70 + i as i128;
            if id_wide < i32::MIN as i128 || id_wide > i32::MAX as i128 {
                proof {
                    assert(meteora_bins(data@, (i + 1) as nat) == Err::<Seq<DlmmBin>, AccountDataError>(
                        AccountDataError::BinIdOutOfRange,
                    ));
                    lemma_meteora_bins_error_persists(data@, (i + 1) as nat, 70);
                }
                return Err(AccountDataError::BinIdOutOfRange);
            }
            bins.push(DlmmBin { id: id_wide as i32, amount_x, amount_y });
        }
        i = i + 1;
    }
    proof {
        lemma_meteora_bin_array_shape(data@, expected_lb_pair);
    }
    Ok(bins)
}

/// The slot of a bin-array account `data` that bin `b` comes from: its id
/// less the first id of the array.
pub open spec fn meteora_slot_of(data: Seq<u8>, b: DlmmBin) -> int {
    b.id as int - int_at(data, 8, 8) * METEORA_BINS_PER_ARRAY
}

/// Whether `b` is the bin of slot `i` of a bin-array account `data`: id
/// `array index * 70 + i`, amounts the two `u64`s at `56 + 144 i` and `64 + 144 i`.
pub open spec fn meteora_bin_at_slot(data: Seq<u8>, b: DlmmBin, i: int) -> bool {
    &&& 0 <= i < METEORA_BINS_PER_ARRAY
    &&& b.id as int == int_at(data, 8, 8) * METEORA_BINS_PER_ARRAY + i
    &&& b.amount_x == uint_at(data, 56 + 144 * i, 8) as u128
    &&& b.amount_y == uint_at(data, 64 + 144 * i, 8) as u128
}

proof fn lemma_meteora_bins_facts(data: Seq<u8>, n: nat)
    requires
        n <= METEORA_BINS_PER_ARRAY,
        data.len() >= meteora_bin_array_min_len(),
        meteora_bins(data, n) is Ok,
    ensures
        ({
            let bins = meteora_bins(data, n)->Ok_0;
            &&& forall|j: int| 0 <= j < bins.len() ==>
                meteora_bin_at_slot(data, #[trigger] bins[j], meteora_slot_of(data, bins[j]))
            &&& forall|j: int| 0 <= j < bins.len() ==>
                (#[trigger] bins[j]).id < int_at(data, 8, 8) * METEORA_BINS_PER_ARRAY + n
            &&& forall|j: int, k: int| 0 <= j < k < bins.len() ==> (#[trigger] bins[j]).id < (#[trigger] bins[k]).id
            &&& forall|j: int| 0 <= j < bins.len() ==> (#[trigger] bins[j]).amount_x != 0 || bins[j].amount_y != 0
        }),
    decreases n,
{
    if n > 0 {
        let m = (n - 1) as nat;
        if meteora_bins(data, m) is Err {
            assert(meteora_bins(data, n) is Err);
        } else {
            lemma_meteora_bins_facts(data, m);
            let prev = meteora_bins(data, m)->Ok_0;
            let bins = meteora_bins(data, n)->Ok_0;
            let a = int_at(data, 8, 8);
            let i = m as int;
            let off = meteora_bin_offset(i);
            assert(off == 56 + 144 * i);
            let x = uint_at(data, off, 8);
            let y = uint_at(data, off + 8, 8);
            let id = a * METEORA_BINS_PER_ARRAY + i;
            if x == 0 && y == 0 {
                assert(bins == prev);
                assert forall|j: int| 0 <= j < bins.len() implies
                    (#[trigger] bins[j]).id < a * METEORA_BINS_PER_ARRAY + n by {
                    assert(prev[j].id < a * METEORA_BINS_PER_ARRAY + m);
                }
            } else {
                assert(i32::MIN <= id <= i32::MAX);
                let nb = DlmmBin { id: id as i32, amount_x: x as u128, amount_y: y as u128 };
                assert(bins == prev.push(nb));
                assert(nb.id as int == id);
                crate::account_data::lemma_le_value_bound(field(data, off, 8));
                crate::account_data::lemma_le_value_bound(field(data, off + 8, 8));
                lemma2_to64();
                assert(x < 0x10000000000000000 && y < 0x10000000000000000);
                assert(meteora_bin_at_slot(data, nb, i));
                assert(nb.amount_x != 0 || nb.amount_y != 0);
                assert forall|j: int| 0 <= j < bins.len() implies
                    meteora_bin_at_slot(data, #[trigger] bins[j], meteora_slot_of(data, bins[j])) by {
                    if j < prev.len() {
                        assert(bins[j] == prev[j]);
                    } else {
                        assert(bins[j] == nb);
                    }
                }
                assert forall|j: int| 0 <= j < bins.len() implies
                    (#[trigger] bins[j]).id < a * METEORA_BINS_PER_ARRAY + n by {
                    if j < prev.len() {
                        assert(bins[j] == prev[j]);
                        assert(prev[j].id < a * METEORA_BINS_PER_ARRAY + m);
                    }
                }
                assert forall|j: int, k: int| 0 <= j < k < bins.len() implies
                    (#[trigger] bins[j]).id < (#[trigger] bins[k]).id by {
                    assert(bins[j] == prev[j]);
                    assert(prev[j].id < a * METEORA_BINS_PER_ARRAY + m);
                    if k < prev.len() {
                        assert(bins[k] == prev[k]);
                    }
                }
                assert forall|j: int| 0 <= j < bins.len() implies (#[trigger] bins[j]).amount_x != 0 || bins[j].amount_y != 0 by {
                    if j < prev.len() {
                        assert(bins[j] == prev[j]);
                    }
                }
            }
        }
    }
}

/// The shape of the bins decoded from a bin-array account `data`: each bin
/// comes from its slot (`meteora_bin_at_slot`), none is empty, ids strictly
/// increase, and every id lies in the array the account's index names.
pub open spec fn meteora_bins_shaped(data: Seq<u8>, bins: Seq<DlmmBin>) -> bool {
    &&& forall|j: int| 0 <= j < bins.len() ==>
        meteora_bin_at_slot(data, #[trigger] bins[j], meteora_slot_of(data, bins[j]))
    &&& forall|j: int| 0 <= j < bins.len() ==> (#[trigger] bins[j]).amount_x != 0 || bins[j].amount_y != 0
    &&& forall|j: int, k: int| 0 <= j < k < bins.len() ==> (#[trigger] bins[j]).id < (#[trigger] bins[k]).id
    &&& forall|j: int| 0 <= j < bins.len() ==>
        (#[trigger] bins[j]).id as int / METEORA_BINS_PER_ARRAY as int == int_at(data, 8, 8)
}

/// What a decoded bin array holds: each bin comes from slot
/// `i = id - array index * 70` of the account, `0 <= i < 70`, its amounts
/// the `u64`s at byte offsets `56 + 144 i` and `64 + 144 i`; no bin is
/// empty, ids strictly increase, and every bin lies in the array the
/// account's index names.
pub proof fn lemma_meteora_bin_array_shape(data: Seq<u8>, expected_lb_pair: PubkeyBytes)
    requires
        meteora_bin_array_spec(data, expected_lb_pair) is Ok,
    ensures
        meteora_bins_shaped(data, meteora_bin_array_spec(data, expected_lb_pair)->Ok_0),
{
    lemma_meteora_bins_facts(data, METEORA_BINS_PER_ARRAY as nat);
    let bins = meteora_bin_array_spec(data, expected_lb_pair)->Ok_0;
    assert(bins == meteora_bins(data, METEORA_BINS_PER_ARRAY as nat)->Ok_0);
    assert forall|j: int| 0 <= j < bins.len() implies
        (#[trigger] bins[j]).id as int / METEORA_BINS_PER_ARRAY as int == int_at(data, 8, 8) by {
        vstd::arithmetic::div_mod::lemma_fundamental_div_mod_converse(
            bins[j].id as int, 70, int_at(data, 8, 8), meteora_slot_of(data, bins[j]));
    }
}

} // verus!
