//! Conversion of DEX listing data into the library's pool model: account
//! addresses, token amounts given as decimal text, and the pool records.

use vstd::prelude::*;
use vstd::string::StringSliceAdditionalSpecFns;
use vstd::utf8::encode_utf8;
use crate::base58::{all_digits, is_decoding_of};
use crate::decimal::{
    copy_range, find_separator, first_index, head_part, lemma_first_index_bounds, parse_i32,
    parse_i32_spec, parse_u128, parse_u128_spec, second_part,
};
use crate::engine::instruction_builder::is_address;
use crate::types::{PoolType as EdgePoolType, TokenMint};
use crate::pool::{
    ClmmState, ClmmTick, CpmmState, DexProtocol, DlmmBin, DlmmState, Pool, PoolData, PoolId, PoolMetadata, PoolStatus, PoolToken, PoolType,
    PubkeyBytes,
};

verus! {

/// The 32 bytes that `solana_address::Address::from_str` reads from the text
/// `s`, if it accepts it.
pub uninterp spec fn address_text_key(s: Seq<u8>) -> Option<Seq<u8>>;

/// Calls `solana_address::Address::from_str`, which decodes base58 text of
/// at most 44 bytes into exactly 32 bytes: its result is named
/// `address_text_key`; a key it returns is the base58 decoding of a text of
/// at most 44 bytes, and it returns none when the text is no 32-byte base58
/// address or is longer than 44 bytes.
#[verifier::external_body]
pub(crate) fn address_from_str(s: &str) -> (r: Option<PubkeyBytes>)
    ensures
        r is Some <==> address_text_key(s.spec_bytes()) is Some,
        r matches Some(pk) ==> address_text_key(s.spec_bytes()) == Some(pk.bytes()),
        r matches Some(pk) ==> all_digits(s.spec_bytes()) && is_decoding_of(s.spec_bytes(), pk.bytes())
            && s.spec_bytes().len() <= 44,
        r is None ==> !is_address(s.spec_bytes()) || s.spec_bytes().len() > 44,
{
    match s.parse::<solana_address::Address>() {
        Ok(a) => Some(PubkeyBytes(a.to_bytes())),
        Err(_) => None,
    }
}

/// Why a token amount given as decimal text could not be read.
#[derive(Debug, Clone, Copy, PartialEq, Eq, Structural)]
pub enum AmountError {
    /// The exponent of scientific notation is not an `i32`.
    InvalidExponent,
    /// The significand of scientific notation is not a `u128` once its point is dropped.
    InvalidSignificand,
    /// The amount in atomic units is not a `u128`.
    InvalidAmount,
    /// The amount in atomic units exceeds `u128::MAX`.
    Overflow,
    /// Scientific notation shifts the point by more than 38 places.
    ShiftOutOfRange,
}

/// 10 to the power `n`.
pub open spec fn pow10(n: nat) -> nat
    decreases n,
{
    if n == 0 { 1 } else { 10 * pow10((n - 1) as nat) }
}

/// Whether `s` is in scientific notation (holds an `e` or `E`).
pub open spec fn is_scientific(s: Seq<u8>) -> bool {
    first_index(s, 101u8, 69u8) < s.len()
}

/// `frac` cut, or padded with `0` digits, to `decimals` digits.
pub open spec fn fit_fraction(frac: Seq<u8>, decimals: nat) -> Seq<u8> {
    if frac.len() > decimals {
        frac.subrange(0, decimals as int)
    } else {
        frac + Seq::new((decimals - frac.len()) as nat, |i: int| 48u8)
    }
}

/// The fractional digits of `s`: the text between its first `.` and the
/// next one (empty without a `.`).
pub open spec fn fraction_of(s: Seq<u8>) -> Seq<u8> {
    match second_part(s, 46u8, 46u8) {
        Some(f) => f,
        None => Seq::empty(),
    }
}

/// The significand of scientific notation: the text before the exponent.
pub open spec fn significand_of(s: Seq<u8>) -> Seq<u8> {
    head_part(s, 101u8, 69u8)
}

/// The exponent text of scientific notation.
pub open spec fn exponent_of(s: Seq<u8>) -> Seq<u8> {
    match second_part(s, 101u8, 69u8) {
        Some(e) => e,
        None => Seq::empty(),
    }
}

/// How far scientific notation moves the point, counting the conversion to
/// `decimals` atomic digits.
pub open spec fn net_shift(exponent: i32, frac_len: nat, decimals: u8) -> int {
    exponent - frac_len + decimals
}

/// Whether `raw_amount_spec` describes the reading of `s`: scientific
/// notation moves the point by at most 38 places (with a fraction shorter
/// than `i32::MAX`), and a cut fraction is cut between characters.
pub open spec fn raw_amount_defined(s: Seq<u8>, decimals: u8) -> bool {
    if is_scientific(s) {
        let sig = significand_of(s);
        let frac = fraction_of(sig);
        match (parse_i32_spec(exponent_of(s)), parse_u128_spec(head_part(sig, 46u8, 46u8) + frac)) {
            (Some(e), Some(_)) => frac.len() <= i32::MAX && -38 <= net_shift(e, frac.len(), decimals) <= 38,
            _ => true,
        }
    } else {
        let frac = fraction_of(s);
        frac.len() > decimals ==> (frac[decimals as int] < 0x80 || frac[decimals as int] >= 0xc0)
    }
}

/// The atomic amount that the decimal text `s` denotes for a token with
/// `decimals` decimals. Plain text: the digits before the first `.`, then
/// the fraction cut or padded to `decimals` digits, read as a `u128`.
/// Scientific notation: the significand's digits without the point, times
/// ten to the exponent plus `decimals` minus the fraction's length,
/// rounded down.
pub open spec fn raw_amount_spec(s: Seq<u8>, decimals: u8) -> Result<u128, AmountError> {
    if is_scientific(s) {
        let sig = significand_of(s);
        let frac = fraction_of(sig);
        match parse_i32_spec(exponent_of(s)) {
            None => Err(AmountError::InvalidExponent),
            Some(e) => match parse_u128_spec(head_part(sig, 46u8, 46u8) + frac) {
                None => Err(AmountError::InvalidSignificand),
                Some(base) => {
                    let net = net_shift(e, frac.len(), decimals);
                    if net < 0 {
                        Ok((base as nat / pow10((-net) as nat)) as u128)
                    } else if base as nat * pow10(net as nat) > u128::MAX {
                        Err(AmountError::Overflow)
                    } else {
                        Ok((base as nat * pow10(net as nat)) as u128)
                    }
                },
            },
        }
    } else {
        match parse_u128_spec(head_part(s, 46u8, 46u8) + fit_fraction(fraction_of(s), decimals as nat)) {
            Some(v) => Ok(v),
            None => Err(AmountError::InvalidAmount),
        }
    }
}

/// Whether `s` is scientific notation that moves the point by more than 38
/// places (or has a fraction of `i32::MAX` bytes or more).
pub open spec fn shift_out_of_range(s: Seq<u8>, decimals: u8) -> bool {
    is_scientific(s) && {
        let sig = significand_of(s);
        let frac = fraction_of(sig);
        match (parse_i32_spec(exponent_of(s)), parse_u128_spec(head_part(sig, 46u8, 46u8) + frac)) {
            (Some(e), Some(_)) => !(frac.len() <= i32::MAX && -38 <= net_shift(e, frac.len(), decimals) <= 38),
            _ => false,
        }
    }
}

/// What reading `s` gives: `raw_amount_spec`, except `ShiftOutOfRange` for
/// scientific notation that moves the point too far.
pub open spec fn raw_amount_outcome(s: Seq<u8>, decimals: u8) -> Result<u128, AmountError> {
    if shift_out_of_range(s, decimals) {
        Err(AmountError::ShiftOutOfRange)
    } else {
        raw_amount_spec(s, decimals)
    }
}

/// `10^n` for `n <= 38`.
fn pow10_u128(n: u32) -> (r: u128)
    requires
        n <= 38,
    ensures
        r == pow10(n as nat),
        r >= 1,
{
    proof {
        lemma_pow10_monotone(0, 38);
        lemma_pow10_monotone(n as nat, n as nat);
        lemma_pow10_38();
    }
    let mut r: u128 = 1;
    let mut i: u32 = 0;
    while i < n
        invariant
            i <= n <= 38,
            r == pow10(i as nat),
            pow10(i as nat) <= pow10(38),
            pow10(38) == 100000000000000000000000000000000000000nat,
        decreases n - i,
    {
        proof {
            lemma_pow10_monotone((i + 1) as nat, 38);
        }
        r = r * 10;
        i = i + 1;
    }
    r
}

proof fn lemma_pow10_38()
    ensures
        pow10(38) == 100000000000000000000000000000000000000nat,
{
    reveal_with_fuel(pow10, 39);
}

proof fn lemma_pow10_monotone(a: nat, b: nat)
    requires
        a <= b,
    ensures
        1 <= pow10(a) <= pow10(b),
    decreases b,
{
    if b > 0 {
        if a < b {
            lemma_pow10_monotone(a, (b - 1) as nat);
        } else {
            lemma_pow10_monotone((b - 1) as nat, (b - 1) as nat);
        }
    }
}

/// The text between the first `c1`/`c2` of `s` and the next one, if any.
fn second_field(s: &[u8], c1: u8, c2: u8) -> (r: Option<Vec<u8>>)
    ensures
        match second_part(s@, c1, c2) {
            Some(t) => r matches Some(v) && v@ == t,
            None => r is None,
        },
{
    let i = find_separator(s, c1, c2);
    proof {
        lemma_first_index_bounds(s@, c1, c2);
    }
    if i >= s.len() {
        return None;
    }
    let rest = copy_range(s, i + 1, s.len());
    let j = find_separator(rest.as_slice(), c1, c2);
    proof {
        lemma_first_index_bounds(rest@, c1, c2);
    }
    Some(copy_range(rest.as_slice(), 0, j))
}

/// Reads the decimal text `s` as an atomic amount (see `raw_amount_outcome`).
fn read_raw_amount(s: &str, decimals: u8) -> (r: Result<u128, AmountError>)
    ensures
        r == raw_amount_outcome(s.spec_bytes(), decimals),
{
    let b = s.as_bytes();
    let ghost t = s.spec_bytes();
    let ei = find_separator(b, 101u8, 69u8);
    proof {
        lemma_first_index_bounds(t, 101u8, 69u8);
    }
    if ei < b.len() {
        let sig = copy_range(b, 0, ei);
        let exp_text = match second_field(b, 101u8, 69u8) {
            Some(e) => e,
            None => Vec::new(),
        };
        let exponent = match parse_i32(exp_text.as_slice()) {
            Some(e) => e,
            None => return Err(AmountError::InvalidExponent),
        };
        let di = find_separator(sig.as_slice(), 46u8, 46u8);
        proof {
            lemma_first_index_bounds(sig@, 46u8, 46u8);
        }
        let mut digits = copy_range(sig.as_slice(), 0, di);
        let frac = match second_field(sig.as_slice(), 46u8, 46u8) {
            Some(f) => f,
            None => Vec::new(),
        };
        let ghost whole = digits@;
        let mut k: usize = 0;
        while k < frac.len()
            invariant
                k <= frac@.len(),
                digits@ == whole + frac@.subrange(0, k as int),
            decreases frac@.len() - k,
        {
            digits.push(frac[k]);
            proof {
                assert(frac@.subrange(0, k + 1) =~= frac@.subrange(0, k as int).push(frac@[k as int]));
            }
            k = k + 1;
        }
        proof {
            assert(frac@.subrange(0, frac@.len() as int) =~= frac@);
            assert(sig@ == significand_of(t));
        }
        let base = match parse_u128(digits.as_slice()) {
            Some(v) => v,
            None => return Err(AmountError::InvalidSignificand),
        };
        let net: i128 = exponent as i128 - frac.len() as i128 + decimals as i128;
        if frac.len() > 0x7fff_ffff || net < -38 || net > 38 {
            return Err(AmountError::ShiftOutOfRange);
        }
        if net < 0 {
            let p = pow10_u128((-net) as u32);
            Ok(base / p)
        } else {
            let p = pow10_u128(net as u32);
            match base.checked_mul(p) {
                Some(v) => Ok(v),
                None => Err(AmountError::Overflow),
            }
        }
    } else {
        let di = find_separator(b, 46u8, 46u8);
        proof {
            lemma_first_index_bounds(t, 46u8, 46u8);
        }
        let mut digits = copy_range(b, 0, di);
        let frac = match second_field(b, 46u8, 46u8) {
            Some(f) => f,
            None => Vec::new(),
        };
        let ghost whole = digits@;
        let want = decimals as usize;
        let take = if frac.len() > want { want } else { frac.len() };
        let mut k: usize = 0;
        while k < take
            invariant
                k <= take <= frac@.len(),
                digits@ == whole + frac@.subrange(0, k as int),
            decreases take - k,
        {
            digits.push(frac[k]);
            proof {
                assert(frac@.subrange(0, k + 1) =~= frac@.subrange(0, k as int).push(frac@[k as int]));
            }
            k = k + 1;
        }
        let ghost with_frac = digits@;
        while k < want
            invariant
                take <= k <= want,
                take == if frac@.len() > want { want as nat } else { frac@.len() },
                digits@ == with_frac + Seq::new((k - take) as nat, |i: int| 48u8),
            decreases want - k,
        {
            digits.push(48u8);
            proof {
                assert(with_frac + Seq::new((k + 1 - take) as nat, |i: int| 48u8)
                    =~= (with_frac + Seq::new((k - take) as nat, |i: int| 48u8)).push(48u8));
            }
            k = k + 1;
        }
        proof {
            assert(digits@ =~= head_part(t, 46u8, 46u8) + fit_fraction(frac@, decimals as nat));
        }
        match parse_u128(digits.as_slice()) {
            Some(v) => Ok(v),
            None => Err(AmountError::InvalidAmount),
        }
    }
}

/// Reads the decimal text `s` as an atomic amount of a token with
/// `decimals` decimals (see `raw_amount_spec`).
pub fn parse_raw_amount_text(s: &str, decimals: u8) -> (r: Result<u128, AmountError>)
    requires
        raw_amount_defined(s.spec_bytes(), decimals),
    ensures
        r == raw_amount_spec(s.spec_bytes(), decimals),
{
    read_raw_amount(s, decimals)
}

/// Reads Meteora DLMM pool listings.
pub struct MeteoraAdapter;

impl MeteoraAdapter {
    /// The account address written in base58 as `address`, if it is one.
    pub fn parse_pubkey(address: &str) -> (r: Option<PubkeyBytes>)
        ensures
            r is Some <==> address_text_key(address.spec_bytes()) is Some,
            r matches Some(pk) ==> address_text_key(address.spec_bytes()) == Some(pk.bytes()),
            r matches Some(pk) ==> all_digits(address.spec_bytes()) && is_decoding_of(address.spec_bytes(), pk.bytes())
                && address.spec_bytes().len() <= 44,
            r is None ==> !is_address(address.spec_bytes()) || address.spec_bytes().len() > 44,
    {
        address_from_str(address)
    }

    /// The atomic amount that a listing's JSON number, given as its JSON
    /// text `text`, denotes for a token with `decimals` decimals.
    pub fn parse_raw_amount(text: &str, decimals: u8) -> (r: Result<u128, AmountError>)
        ensures
            r == raw_amount_outcome(text.spec_bytes(), decimals),
    {
        read_raw_amount(text, decimals)
    }
}

/// Token metadata of a Meteora DLMM listing.
pub struct MeteoraTokenInfo {
    pub address: String,
    pub decimals: u32,
    pub name: String,
    pub symbol: String,
}

/// A Meteora DLMM pool listing; its floating-point fields are read by the
/// caller into `MeteoraReadings`.
pub struct MeteoraPoolItem {
    /// Pool account address.
    pub address: String,
    pub token_x: MeteoraTokenInfo,
    pub token_y: MeteoraTokenInfo,
    /// Reserve vault addresses.
    pub reserve_x: String,
    pub reserve_y: String,
    /// Reserves in token units: the JSON text of the listing's numbers.
    pub token_x_amount: String,
    pub token_y_amount: String,
    pub bin_step: u32,
    pub is_blacklisted: bool,
}

/// What the caller read from a listing's floating-point fields: whether its
/// TVL is under the minimum, the TVL (bits of an `f64`), the active price
/// in atomic units (bits of an `f64`; `None` when it is not a positive
/// finite number) and the base fee in parts per million (`None` when it is
/// out of range).
#[derive(Debug, Clone, Copy)]
pub struct MeteoraReadings {
    pub below_min_tvl: bool,
    pub tvl_bits: u64,
    pub active_price_bits: Option<u64>,
    pub fee_rate: Option<u32>,
}

/// Why a listing is not turned into a pool.
#[derive(Debug, Clone, Copy, PartialEq, Eq, Structural)]
pub enum ListingSkip {
    Blacklisted,
    LowTvl,
    /// An account address does not parse.
    InvalidAddress,
    InvalidAmount(AmountError),
    /// A reserve is zero.
    EmptyReserve,
    InvalidPrice,
    /// The bin step is zero or does not fit in `u16`.
    InvalidBinStep,
    InvalidFee,
    /// A concentrated-liquidity listing without its configuration.
    MissingConfig,
    /// A pool type this library does not model.
    UnknownPoolType,
    /// A number given as text is not a `u128`.
    InvalidNumber,
    /// The pool has no liquidity.
    NoLiquidity,
    /// The TVL text is not a number.
    InvalidTvl,
}

/// The key `address_text_key` gives the text of `s`.
pub open spec fn key_of(s: String) -> Option<Seq<u8>> {
    address_text_key(encode_utf8(s@))
}

/// Whether `t` is the pool token of listing token `info` with mint key
/// `mint` and vault key `vault`.
pub open spec fn meteora_token_is(t: PoolToken, info: MeteoraTokenInfo, mint: Seq<u8>, vault: Seq<u8>) -> bool {
    &&& t.mint.bytes() == mint
    &&& t.name@ == info.name@
    &&& t.symbol@ == info.symbol@
    &&& t.decimals == info.decimals as u8
    &&& t.vault matches Some(v) && v.bytes() == vault
}

/// Whether `r` is what the listing `item` gives with reserves read as
/// `reserve_a` and `reserve_b`, the caller's readings `rd`, pool id `id` and
/// slot `slot`: the first failing check in the order blacklist, TVL,
/// addresses (pool, mints, vaults), reserves, price, bin step, fee, or else
/// the DLMM pool built from them.
pub open spec fn meteora_listing_is(
    item: MeteoraPoolItem,
    reserve_a: Result<u128, AmountError>,
    reserve_b: Result<u128, AmountError>,
    rd: MeteoraReadings,
    id: PoolId,
    slot: Option<u64>,
    r: Result<Pool, ListingSkip>,
) -> bool {
    let keys = seq![key_of(item.address), key_of(item.token_x.address), key_of(item.token_y.address),
        key_of(item.reserve_x), key_of(item.reserve_y)];
    if item.is_blacklisted {
        r == Err::<Pool, ListingSkip>(ListingSkip::Blacklisted)
    } else if rd.below_min_tvl {
        r == Err::<Pool, ListingSkip>(ListingSkip::LowTvl)
    } else if exists|i: int| 0 <= i < 5 && #[trigger] keys[i] is None {
        r == Err::<Pool, ListingSkip>(ListingSkip::InvalidAddress)
    } else if reserve_a is Err {
        r == Err::<Pool, ListingSkip>(ListingSkip::InvalidAmount(reserve_a->Err_0))
    } else if reserve_b is Err {
        r == Err::<Pool, ListingSkip>(ListingSkip::InvalidAmount(reserve_b->Err_0))
    } else if reserve_a->Ok_0 == 0 || reserve_b->Ok_0 == 0 {
        r == Err::<Pool, ListingSkip>(ListingSkip::EmptyReserve)
    } else if rd.active_price_bits is None {
        r == Err::<Pool, ListingSkip>(ListingSkip::InvalidPrice)
    } else if item.bin_step == 0 || item.bin_step > u16::MAX {
        r == Err::<Pool, ListingSkip>(ListingSkip::InvalidBinStep)
    } else if rd.fee_rate is None {
        r == Err::<Pool, ListingSkip>(ListingSkip::InvalidFee)
    } else {
        r matches Ok(pool) && {
            &&& pool.metadata.id == id
            &&& pool.metadata.pubkey.bytes() == keys[0]->0
            &&& pool.metadata.protocol == DexProtocol::Meteora
            &&& pool.metadata.pool_type == PoolType::Dlmm
            &&& pool.metadata.status == PoolStatus::Active
            &&& meteora_token_is(pool.metadata.token_a, item.token_x, keys[1]->0, keys[3]->0)
            &&& meteora_token_is(pool.metadata.token_b, item.token_y, keys[2]->0, keys[4]->0)
            &&& pool.data matches PoolData::Dlmm(st) && {
                &&& st.active_bin_id is None
                &&& st.bin_step == item.bin_step as u16
                &&& st.active_price_bits == rd.active_price_bits
                &&& st.reserve_a == Some(reserve_a->Ok_0)
                &&& st.reserve_b == Some(reserve_b->Ok_0)
                &&& st.bins@.len() == 0
            }
            &&& pool.fee_rate == rd.fee_rate->0
            &&& pool.tvl_bits == Some(rd.tvl_bits)
            &&& pool.last_updated_slot == slot
        }
    }
}

impl MeteoraAdapter {
    /// The pool of listing `item` (see `meteora_listing_is`), given its
    /// reserves already read.
    pub fn pool_from_parts(
        item: &MeteoraPoolItem,
        reserve_a: Result<u128, AmountError>,
        reserve_b: Result<u128, AmountError>,
        rd: MeteoraReadings,
        id: PoolId,
        slot: Option<u64>,
    ) -> (r: Result<Pool, ListingSkip>)
        ensures
            meteora_listing_is(*item, reserve_a, reserve_b, rd, id, slot, r),
    {
        let ghost keys = seq![key_of(item.address), key_of(item.token_x.address), key_of(item.token_y.address),
            key_of(item.reserve_x), key_of(item.reserve_y)];
        if item.is_blacklisted {
            return Err(ListingSkip::Blacklisted);
        }
        if rd.below_min_tvl {
            return Err(ListingSkip::LowTvl);
        }
        let pubkey = match Self::parse_pubkey(item.address.as_str()) {
            Some(pk) => pk,
            None => return Err(ListingSkip::InvalidAddress),
        };
        let mint_a = match Self::parse_pubkey(item.token_x.address.as_str()) {
            Some(pk) => pk,
            None => return Err(ListingSkip::InvalidAddress),
        };
        let mint_b = match Self::parse_pubkey(item.token_y.address.as_str()) {
            Some(pk) => pk,
            None => return Err(ListingSkip::InvalidAddress),
        };
        let vault_a = match Self::parse_pubkey(item.reserve_x.as_str()) {
            Some(pk) => pk,
            None => return Err(ListingSkip::InvalidAddress),
        };
        let vault_b = match Self::parse_pubkey(item.reserve_y.as_str()) {
            Some(pk) => pk,
            None => return Err(ListingSkip::InvalidAddress),
        };
        proof {
            assert forall|i: int| 0 <= i < 5 implies #[trigger] keys[i] is Some by {}
        }
        let ra = match reserve_a {
            Ok(v) => v,
            Err(e) => return Err(ListingSkip::InvalidAmount(e)),
        };
        let rb = match reserve_b {
            Ok(v) => v,
            Err(e) => return Err(ListingSkip::InvalidAmount(e)),
        };
        if ra == 0 || rb == 0 {
            return Err(ListingSkip::EmptyReserve);
        }
        let price = match rd.active_price_bits {
            Some(p) => p,
            None => return Err(ListingSkip::InvalidPrice),
        };
        if item.bin_step == 0 || item.bin_step > 0xffff {
            return Err(ListingSkip::InvalidBinStep);
        }
        let fee_rate = match rd.fee_rate {
            Some(f) => f,
            None => return Err(ListingSkip::InvalidFee),
        };
        let token_a = PoolToken {
            mint: mint_a,
            name: item.token_x.name.clone(),
            symbol: item.token_x.symbol.clone(),
            decimals: item.token_x.decimals as u8,
            vault: Some(vault_a),
        };
        let token_b = PoolToken {
            mint: mint_b,
            name: item.token_y.name.clone(),
            symbol: item.token_y.symbol.clone(),
            decimals: item.token_y.decimals as u8,
            vault: Some(vault_b),
        };
        let bins: Vec<DlmmBin> = Vec::new();
        Ok(Pool {
            metadata: PoolMetadata {
                id,
                pubkey,
                protocol: DexProtocol::Meteora,
                pool_type: PoolType::Dlmm,
                status: PoolStatus::Active,
                token_a,
                token_b,
            },
            data: PoolData::Dlmm(DlmmState {
                active_bin_id: None,
                bin_step: item.bin_step as u16,
                active_price_bits: Some(price),
                reserve_a: Some(ra),
                reserve_b: Some(rb),
                bins,
            }),
            fee_rate,
            tvl_bits: Some(rd.tvl_bits),
            last_updated_slot: slot,
        })
    }
}

/// The atomic amount that the listing text `text` denotes for a token with
/// `decimals` decimals.
pub open spec fn listing_amount(text: String, decimals: u32) -> Result<u128, AmountError> {
    raw_amount_outcome(encode_utf8(text@), decimals as u8)
}

/// Whether `r` is what the Meteora listing `item` with readings `rd` gives
/// as pool `id`, its reserves read from the text of its amounts with the
/// tokens' decimals.
pub open spec fn meteora_entry_is(
    item: MeteoraPoolItem,
    rd: MeteoraReadings,
    id: PoolId,
    slot: Option<u64>,
    r: Result<Pool, ListingSkip>,
) -> bool {
    meteora_listing_is(
        item,
        listing_amount(item.token_x_amount, item.token_x.decimals),
        listing_amount(item.token_y_amount, item.token_y.decimals),
        rd,
        id,
        slot,
        r,
    )
}

/// The pools among the listing results `rs`, in order.
pub open spec fn ok_pools(rs: Seq<Result<Pool, ListingSkip>>) -> Seq<Pool>
    decreases rs.len(),
{
    if rs.len() == 0 {
        Seq::empty()
    } else {
        let before = ok_pools(rs.drop_last());
        match rs.last() {
            Ok(pool) => before.push(pool),
            Err(_) => before,
        }
    }
}

/// The id that listing `i` of a page whose results are `rs` gets when the
/// page is numbered from `start`: `start` plus the number of listings
/// accepted before it.
pub open spec fn page_id(start: PoolId, rs: Seq<Result<Pool, ListingSkip>>, i: int) -> PoolId {
    (start + ok_pools(rs.take(i)).len()) as PoolId
}

proof fn lemma_ok_pools_push(rs: Seq<Result<Pool, ListingSkip>>, x: Result<Pool, ListingSkip>)
    ensures
        ok_pools(rs.push(x)) == match x {
            Ok(pool) => ok_pools(rs).push(pool),
            Err(_) => ok_pools(rs),
        },
        forall|k: int| 0 <= k <= rs.len() ==> #[trigger] rs.push(x).take(k) == rs.take(k),
{
    assert(rs.push(x).drop_last() =~= rs);
    assert forall|k: int| 0 <= k <= rs.len() implies #[trigger] rs.push(x).take(k) == rs.take(k) by {
        assert(rs.push(x).take(k) =~= rs.take(k));
    }
}

proof fn lemma_ok_pools_len(rs: Seq<Result<Pool, ListingSkip>>)
    ensures
        ok_pools(rs).len() <= rs.len(),
    decreases rs.len(),
{
    if rs.len() > 0 {
        lemma_ok_pools_len(rs.drop_last());
    }
}

impl MeteoraAdapter {
    /// The pool of listing `item`, reading its reserves from the text of
    /// its amounts with the tokens' decimals.
    pub fn convert_listing(item: &MeteoraPoolItem, rd: MeteoraReadings, id: PoolId, slot: Option<u64>)
        -> (r: Result<Pool, ListingSkip>)
        ensures
            meteora_entry_is(*item, rd, id, slot, r),
            r matches Ok(pool) ==> pool.metadata.id == id,
    {
        let ra = Self::parse_raw_amount(item.token_x_amount.as_str(), item.token_x.decimals as u8);
        let rb = Self::parse_raw_amount(item.token_y_amount.as_str(), item.token_y.decimals as u8);
        Self::pool_from_parts(item, ra, rb, rd, id, slot)
    }

    /// Converts one page of listings, `readings[i]` being the caller's
    /// reading of `items[i]`: the pools of the accepted listings in order,
    /// numbered from `next_id` on, and whether every listing was blacklisted
    /// or under the minimum TVL (after which no further page is worth
    /// fetching).
    pub fn convert_page(
        items: &Vec<MeteoraPoolItem>,
        readings: &Vec<MeteoraReadings>,
        next_id: &mut PoolId,
        slot: Option<u64>,
    ) -> (r: (Vec<Pool>, bool))
        requires
            items@.len() == readings@.len(),
            *old(next_id) + items@.len() <= u32::MAX,
        ensures
            exists|rs: Seq<Result<Pool, ListingSkip>>| {
                &&& rs.len() == items@.len()
                &&& r.0@ == #[trigger] ok_pools(rs)
                &&& forall|i: int| 0 <= i < items@.len() ==>
                    meteora_entry_is(items@[i], readings@[i], page_id(*old(next_id), rs, i), slot, #[trigger] rs[i])
            },
            r.1 == forall|i: int| 0 <= i < items@.len() ==>
                (#[trigger] items@[i]).is_blacklisted || readings@[i].below_min_tvl,
            *final(next_id) == *old(next_id) + r.0@.len(),
            forall|j: int| 0 <= j < r.0@.len() ==> (#[trigger] r.0@[j]).metadata.id == *old(next_id) + j,
    {
        let ghost start = *next_id;
        let ghost mut rs: Seq<Result<Pool, ListingSkip>> = Seq::empty();
        let mut pools: Vec<Pool> = Vec::new();
        let mut all_below = true;
        let mut i: usize = 0;
        while i < items.len()
            invariant
                items@.len() == readings@.len(),
                i <= items@.len(),
                start + items@.len() <= u32::MAX,
                rs.len() == i,
                pools@ == ok_pools(rs),
                pools@.len() <= i,
                *next_id == start + pools@.len(),
                forall|j: int| 0 <= j < pools@.len() ==> (#[trigger] pools@[j]).metadata.id == start + j,
                forall|k: int| 0 <= k < i ==>
                    meteora_entry_is(items@[k], readings@[k], page_id(start, rs, k), slot, #[trigger] rs[k]),
                all_below == forall|k: int| 0 <= k < i ==>
                    (#[trigger] items@[k]).is_blacklisted || readings@[k].below_min_tvl,
            decreases items@.len() - i,
        {
            let item = &items[i];
            let rd = readings[i];
            if !item.is_blacklisted && !rd.below_min_tvl {
                all_below = false;
            }
            let res = Self::convert_listing(item, rd, *next_id, slot);
            proof {
                lemma_ok_pools_push(rs, res);
                assert(rs.push(res).take(i as int) == rs);
                let new_rs = rs.push(res);
                assert forall|k: int| 0 <= k < i + 1 implies
                    meteora_entry_is(items@[k], readings@[k], page_id(start, new_rs, k), slot, #[trigger] new_rs[k]) by {
                    if k < i {
                        assert(new_rs[k] == rs[k]);
                        assert(new_rs.take(k) == rs.take(k));
                    } else {
                        assert(rs.take(i as int) =~= rs);
                    }
                }
                rs = new_rs;
            }
            match res {
                Ok(pool) => {
                    pools.push(pool);
                    *next_id = *next_id + 1;
                },
                Err(_) => {},
            }
            i = i + 1;
        }
        proof {
            assert(pools@ == ok_pools(rs));
        }
        (pools, all_below)
    }

    /// Whether to fetch the page after `current_page`: not when every
    /// listing of this page was below the TVL minimum, nor after the last page.
    pub fn should_fetch_next_page(all_below_threshold: bool, current_page: u32, total_pages: u64) -> (r: bool)
        ensures
            r == (!all_below_threshold && (current_page as u64) < total_pages),
    {
        !all_below_threshold && (current_page as u64) < total_pages
    }
}

/// A token of a Meteora pool listing (older API shape).
pub struct MeteoraToken {
    pub address: String,
    pub symbol: Option<String>,
    pub decimals: u8,
}

impl MeteoraToken {
    /// The routing token: the listing's mint, its symbol or `Unknown`.
    pub fn token_mint(&self) -> (r: TokenMint)
        ensures
            r.mint@ == self.address@,
            r.symbol@ == match self.symbol { Some(s) => s@, None => "Unknown"@ },
            r.decimals == self.decimals,
    {
        let symbol = match &self.symbol {
            Some(s) => s.clone(),
            None => "Unknown".to_owned(),
        };
        TokenMint { mint: self.address.clone(), symbol, decimals: self.decimals }
    }
}

/// A token of a Raydium pool listing (`mintA` / `mintB`).
pub struct RaydiumMintInfo {
    pub address: String,
    pub symbol: String,
    pub decimals: u8,
}

impl RaydiumMintInfo {
    /// The routing token of this listing token.
    pub fn token_mint(&self) -> (r: TokenMint)
        ensures
            r.mint@ == self.address@,
            r.symbol@ == self.symbol@,
            r.decimals == self.decimals,
    {
        TokenMint { mint: self.address.clone(), symbol: self.symbol.clone(), decimals: self.decimals }
    }
}

/// A token of an Orca Whirlpool listing.
pub struct OrcaToken {
    pub mint: String,
    pub symbol: String,
    pub decimals: u8,
}

impl OrcaToken {
    /// The routing token of this listing token.
    pub fn token_mint(&self) -> (r: TokenMint)
        ensures
            r.mint@ == self.mint@,
            r.symbol@ == self.symbol@,
            r.decimals == self.decimals,
    {
        TokenMint { mint: self.mint.clone(), symbol: self.symbol.clone(), decimals: self.decimals }
    }
}

/// The routing pool type of a Raydium listing's `type`: concentrated
/// liquidity for `Concentrated`, a constant-product AMM otherwise.
pub fn raydium_pool_type(kind_name: &str) -> (r: EdgePoolType)
    ensures
        r == if kind_name@ == "Concentrated"@ { EdgePoolType::ConcentratedLiquidity } else { EdgePoolType::Amm },
{
    let concentrated = "Concentrated";
    if kind_name.to_owned() == concentrated.to_owned() {
        EdgePoolType::ConcentratedLiquidity
    } else {
        EdgePoolType::Amm
    }
}

/// A Raydium pool listing; its floating-point fields are read by the caller
/// into `RaydiumReadings`.
pub struct RaydiumPoolItem {
    /// Pool account address.
    pub id: String,
    /// `Standard` (constant product) or `Concentrated`.
    pub kind_name: String,
    pub mint_a: RaydiumMintInfo,
    pub mint_b: RaydiumMintInfo,
    /// Tick spacing from the listing's configuration, present on
    /// concentrated-liquidity listings.
    pub tick_spacing: Option<u16>,
}

/// What the caller read from a Raydium listing's floating-point fields:
/// whether its TVL is under the minimum, the TVL (bits of an `f64`) and the
/// fee in parts per million.
#[derive(Debug, Clone, Copy)]
pub struct RaydiumReadings {
    pub below_min_tvl: bool,
    pub tvl_bits: u64,
    pub fee_rate: u32,
}

/// Whether `t` is the pool token of listing token `info` with mint key `mint`.
pub open spec fn raydium_token_is(t: PoolToken, info: RaydiumMintInfo, mint: Seq<u8>) -> bool {
    &&& t.mint.bytes() == mint
    &&& t.name@.len() == 0
    &&& t.symbol@ == info.symbol@
    &&& t.decimals == info.decimals
    &&& t.vault is None
}

/// Whether `r` is what the Raydium listing `item` gives with reserves read
/// as `reserve_a` and `reserve_b` (used by constant-product listings), the
/// caller's readings `rd`, pool id `id` and slot `slot`: the first failing
/// check in the order TVL, addresses (pool, mints), then by type: reserves
/// for `Standard`, configuration for `Concentrated`, other types refused;
/// else the pool, its vaults left to be hydrated from chain state.
pub open spec fn raydium_listing_is(
    item: RaydiumPoolItem,
    reserve_a: Result<u128, AmountError>,
    reserve_b: Result<u128, AmountError>,
    rd: RaydiumReadings,
    id: PoolId,
    slot: Option<u64>,
    r: Result<Pool, ListingSkip>,
) -> bool {
    let keys = seq![key_of(item.id), key_of(item.mint_a.address), key_of(item.mint_b.address)];
    let standard = item.kind_name@ == "Standard"@;
    let concentrated = item.kind_name@ == "Concentrated"@;
    if rd.below_min_tvl {
        r == Err::<Pool, ListingSkip>(ListingSkip::LowTvl)
    } else if exists|i: int| 0 <= i < 3 && #[trigger] keys[i] is None {
        r == Err::<Pool, ListingSkip>(ListingSkip::InvalidAddress)
    } else if standard && reserve_a is Err {
        r == Err::<Pool, ListingSkip>(ListingSkip::InvalidAmount(reserve_a->Err_0))
    } else if standard && reserve_b is Err {
        r == Err::<Pool, ListingSkip>(ListingSkip::InvalidAmount(reserve_b->Err_0))
    } else if standard && (reserve_a->Ok_0 == 0 || reserve_b->Ok_0 == 0) {
        r == Err::<Pool, ListingSkip>(ListingSkip::EmptyReserve)
    } else if concentrated && item.tick_spacing is None {
        r == Err::<Pool, ListingSkip>(ListingSkip::MissingConfig)
    } else if !standard && !concentrated {
        r == Err::<Pool, ListingSkip>(ListingSkip::UnknownPoolType)
    } else {
        r matches Ok(pool) && {
            &&& pool.metadata.id == id
            &&& pool.metadata.pubkey.bytes() == keys[0]->0
            &&& pool.metadata.protocol == DexProtocol::Raydium
            &&& pool.metadata.status == PoolStatus::Active
            &&& raydium_token_is(pool.metadata.token_a, item.mint_a, keys[1]->0)
            &&& raydium_token_is(pool.metadata.token_b, item.mint_b, keys[2]->0)
            &&& if standard {
                &&& pool.metadata.pool_type == PoolType::Cpmm
                &&& pool.data == PoolData::Cpmm(CpmmState { reserve_a: reserve_a->Ok_0, reserve_b: reserve_b->Ok_0 })
            } else {
                &&& pool.metadata.pool_type == PoolType::Clmm
                &&& pool.data matches PoolData::Clmm(st) && {
                    &&& st.liquidity is None && st.sqrt_price_x64 is None && st.current_tick_index is None
                    &&& st.tick_spacing == item.tick_spacing->0
                    &&& st.reserve_a is None && st.reserve_b is None
                    &&& st.initialized_ticks@.len() == 0
                }
            }
            &&& pool.fee_rate == rd.fee_rate
            &&& pool.tvl_bits == Some(rd.tvl_bits)
            &&& pool.last_updated_slot == slot
        }
    }
}

/// Reads Raydium pool listings.
pub struct RaydiumAdapter;

impl RaydiumAdapter {
    pub fn new() -> (r: Self) {
        RaydiumAdapter
    }

    /// The pool of listing `item` (see `raydium_listing_is`), given its
    /// reserves already read.
    pub fn pool_from_parts(
        item: &RaydiumPoolItem,
        reserve_a: Result<u128, AmountError>,
        reserve_b: Result<u128, AmountError>,
        rd: RaydiumReadings,
        id: PoolId,
        slot: Option<u64>,
    ) -> (r: Result<Pool, ListingSkip>)
        ensures
            raydium_listing_is(*item, reserve_a, reserve_b, rd, id, slot, r),
    {
        let ghost keys = seq![key_of(item.id), key_of(item.mint_a.address), key_of(item.mint_b.address)];
        proof {
            reveal_strlit("Standard");
            reveal_strlit("Concentrated");
            assert("Standard"@.len() == 8);
            assert("Concentrated"@.len() == 12);
        }
        if rd.below_min_tvl {
            return Err(ListingSkip::LowTvl);
        }
        let pubkey = match address_from_str(item.id.as_str()) {
            Some(pk) => pk,
            None => return Err(ListingSkip::InvalidAddress),
        };
        let mint_a = match address_from_str(item.mint_a.address.as_str()) {
            Some(pk) => pk,
            None => return Err(ListingSkip::InvalidAddress),
        };
        let mint_b = match address_from_str(item.mint_b.address.as_str()) {
            Some(pk) => pk,
            None => return Err(ListingSkip::InvalidAddress),
        };
        proof {
            assert forall|i: int| 0 <= i < 3 implies #[trigger] keys[i] is Some by {}
        }
        let standard = "Standard";
        let concentrated = "Concentrated";
        let kind = item.kind_name.clone();
        let (pool_type, data) = if kind == standard.to_owned() {
            let ra = match reserve_a {
                Ok(v) => v,
                Err(e) => return Err(ListingSkip::InvalidAmount(e)),
            };
            let rb = match reserve_b {
                Ok(v) => v,
                Err(e) => return Err(ListingSkip::InvalidAmount(e)),
            };
            if ra == 0 || rb == 0 {
                return Err(ListingSkip::EmptyReserve);
            }
            (PoolType::Cpmm, PoolData::Cpmm(CpmmState { reserve_a: ra, reserve_b: rb }))
        } else if kind == concentrated.to_owned() {
            let tick_spacing = match item.tick_spacing {
                Some(t) => t,
                None => return Err(ListingSkip::MissingConfig),
            };
            let ticks: Vec<ClmmTick> = Vec::new();
            (PoolType::Clmm, PoolData::Clmm(ClmmState {
                liquidity: None,
                sqrt_price_x64: None,
                current_tick_index: None,
                tick_spacing,
                reserve_a: None,
                reserve_b: None,
                initialized_ticks: ticks,
            }))
        } else {
            return Err(ListingSkip::UnknownPoolType);
        };
        let token_a = PoolToken {
            mint: mint_a,
            name: String::new(),
            symbol: item.mint_a.symbol.clone(),
            decimals: item.mint_a.decimals,
            vault: None,
        };
        let token_b = PoolToken {
            mint: mint_b,
            name: String::new(),
            symbol: item.mint_b.symbol.clone(),
            decimals: item.mint_b.decimals,
            vault: None,
        };
        Ok(Pool {
            metadata: PoolMetadata {
                id,
                pubkey,
                protocol: DexProtocol::Raydium,
                pool_type,
                status: PoolStatus::Active,
                token_a,
                token_b,
            },
            data,
            fee_rate: rd.fee_rate,
            tvl_bits: Some(rd.tvl_bits),
            last_updated_slot: slot,
        })
    }

    /// Converts one page of listings, `reserves[i]` and `readings[i]` being
    /// the caller's reading of `items[i]`: the pools of the accepted
    /// listings in order, numbered from `next_id` on.
    pub fn convert_page(
        items: &Vec<RaydiumPoolItem>,
        reserves: &Vec<(Result<u128, AmountError>, Result<u128, AmountError>)>,
        readings: &Vec<RaydiumReadings>,
        next_id: &mut PoolId,
        slot: Option<u64>,
    ) -> (r: Vec<Pool>)
        requires
            items@.len() == reserves@.len(),
            items@.len() == readings@.len(),
            *old(next_id) + items@.len() <= u32::MAX,
        ensures
            exists|rs: Seq<Result<Pool, ListingSkip>>| {
                &&& rs.len() == items@.len()
                &&& r@ == #[trigger] ok_pools(rs)
                &&& forall|i: int| 0 <= i < items@.len() ==> raydium_listing_is(items@[i], reserves@[i].0,
                    reserves@[i].1, readings@[i], page_id(*old(next_id), rs, i), slot, #[trigger] rs[i])
            },
            *final(next_id) == *old(next_id) + r@.len(),
    {
        let ghost start = *next_id;
        let ghost mut rs: Seq<Result<Pool, ListingSkip>> = Seq::empty();
        let mut pools: Vec<Pool> = Vec::new();
        let mut i: usize = 0;
        while i < items.len()
            invariant
                items@.len() == reserves@.len(),
                items@.len() == readings@.len(),
                i <= items@.len(),
                start + items@.len() <= u32::MAX,
                rs.len() == i,
                pools@ == ok_pools(rs),
                *next_id == start + pools@.len(),
                forall|k: int| 0 <= k < i ==> raydium_listing_is(items@[k], reserves@[k].0, reserves@[k].1,
                    readings@[k], page_id(start, rs, k), slot, #[trigger] rs[k]),
            decreases items@.len() - i,
        {
            let (ra, rb) = reserves[i];
            let res = Self::pool_from_parts(&items[i], ra, rb, readings[i], *next_id, slot);
            proof {
                lemma_ok_pools_push(rs, res);
                lemma_ok_pools_len(rs);
                let new_rs = rs.push(res);
                assert forall|k: int| 0 <= k < i + 1 implies raydium_listing_is(items@[k], reserves@[k].0,
                    reserves@[k].1, readings@[k], page_id(start, new_rs, k), slot, #[trigger] new_rs[k]) by {
                    if k < i {
                        assert(new_rs[k] == rs[k]);
                        assert(new_rs.take(k) == rs.take(k));
                    } else {
                        assert(rs.take(i as int) =~= rs);
                        assert(new_rs.take(i as int) == rs.take(i as int));
                    }
                }
                rs = new_rs;
            }
            match res {
                Ok(pool) => {
                    pools.push(pool);
                    *next_id = *next_id + 1;
                },
                Err(_) => {},
            }
            i = i + 1;
        }
        pools
    }

    /// Reads the amount text `s` of a Raydium listing when it is plain
    /// decimal text (see `raw_amount_spec`); `None` for scientific notation,
    /// which the caller reads in floating point.
    pub fn parse_plain_amount(s: &str, decimals: u8) -> (r: Option<Result<u128, AmountError>>)
        ensures
            r is None <==> is_scientific(s.spec_bytes()),
            r matches Some(v) ==> v == raw_amount_spec(s.spec_bytes(), decimals),
    {
        let b = s.as_bytes();
        let ei = find_separator(b, 101u8, 69u8);
        proof {
            lemma_first_index_bounds(s.spec_bytes(), 101u8, 69u8);
        }
        if ei < b.len() {
            return None;
        }
        let r = read_raw_amount(s, decimals);
        Some(r)
    }
}

/// Token metadata of an Orca Whirlpool listing.
pub struct OrcaTokenInfo {
    pub decimals: u8,
    pub name: String,
    pub symbol: String,
}

/// An Orca Whirlpool listing; its TVL text is read by the caller into
/// `WhirlpoolReadings`.
pub struct OrcaPoolItem {
    pub address: String,
    pub tick_spacing: u16,
    pub fee_rate: u32,
    /// Liquidity and square-root price (Q64.64), as decimal text.
    pub liquidity: String,
    pub sqrt_price: String,
    pub tick_current_index: i32,
    pub token_mint_a: String,
    pub token_vault_a: String,
    pub token_mint_b: String,
    pub token_vault_b: String,
    pub token_a: OrcaTokenInfo,
    pub token_b: OrcaTokenInfo,
}

/// What the caller read from a Whirlpool listing's TVL text: the TVL (bits
/// of an `f64`; `None` when the text is not a number) and whether it is
/// under the minimum.
#[derive(Debug, Clone, Copy)]
pub struct WhirlpoolReadings {
    pub tvl_bits: Option<u64>,
    pub below_min_tvl: bool,
}

/// Whether `t` is the pool token of listing token `info` with mint key
/// `mint` and vault key `vault`.
pub open spec fn orca_token_is(t: PoolToken, info: OrcaTokenInfo, mint: Seq<u8>, vault: Seq<u8>) -> bool {
    &&& t.mint.bytes() == mint
    &&& t.name@ == info.name@
    &&& t.symbol@ == info.symbol@
    &&& t.decimals == info.decimals
    &&& t.vault matches Some(v) && v.bytes() == vault
}

/// Whether `r` is what the Whirlpool listing `item` gives with the caller's
/// readings `rd`, pool id `id` and slot `slot`: the first failing check in
/// the order addresses (pool, mints, vaults), liquidity and price text,
/// liquidity not zero, TVL text, TVL minimum; else the concentrated-liquidity
/// pool with its current price and tick.
pub open spec fn whirlpool_listing_is(
    item: OrcaPoolItem,
    rd: WhirlpoolReadings,
    id: PoolId,
    slot: Option<u64>,
    r: Result<Pool, ListingSkip>,
) -> bool {
    let keys = seq![key_of(item.address), key_of(item.token_mint_a), key_of(item.token_mint_b),
        key_of(item.token_vault_a), key_of(item.token_vault_b)];
    let liquidity = parse_u128_spec(encode_utf8(item.liquidity@));
    let sqrt_price = parse_u128_spec(encode_utf8(item.sqrt_price@));
    if exists|i: int| 0 <= i < 5 && #[trigger] keys[i] is None {
        r == Err::<Pool, ListingSkip>(ListingSkip::InvalidAddress)
    } else if liquidity is None || sqrt_price is None {
        r == Err::<Pool, ListingSkip>(ListingSkip::InvalidNumber)
    } else if liquidity == Some(0u128) {
        r == Err::<Pool, ListingSkip>(ListingSkip::NoLiquidity)
    } else if rd.tvl_bits is None {
        r == Err::<Pool, ListingSkip>(ListingSkip::InvalidTvl)
    } else if rd.below_min_tvl {
        r == Err::<Pool, ListingSkip>(ListingSkip::LowTvl)
    } else {
        r matches Ok(pool) && {
            &&& pool.metadata.id == id
            &&& pool.metadata.pubkey.bytes() == keys[0]->0
            &&& pool.metadata.protocol == DexProtocol::Whirlpool
            &&& pool.metadata.pool_type == PoolType::Clmm
            &&& pool.metadata.status == PoolStatus::Active
            &&& orca_token_is(pool.metadata.token_a, item.token_a, keys[1]->0, keys[3]->0)
            &&& orca_token_is(pool.metadata.token_b, item.token_b, keys[2]->0, keys[4]->0)
            &&& pool.data matches PoolData::Clmm(st) && {
                &&& st.liquidity == liquidity
                &&& st.sqrt_price_x64 == sqrt_price
                &&& st.current_tick_index == Some(item.tick_current_index)
                &&& st.tick_spacing == item.tick_spacing
                &&& st.reserve_a is None && st.reserve_b is None
                &&& st.initialized_ticks@.len() == 0
            }
            &&& pool.fee_rate == item.fee_rate
            &&& pool.tvl_bits == rd.tvl_bits
            &&& pool.last_updated_slot == slot
        }
    }
}

/// Reads Orca Whirlpool listings.
pub struct WhirlpoolAdapter;

impl WhirlpoolAdapter {
    /// The pool of listing `item` (see `whirlpool_listing_is`).
    pub fn pool_from_listing(item: &OrcaPoolItem, rd: WhirlpoolReadings, id: PoolId, slot: Option<u64>)
        -> (r: Result<Pool, ListingSkip>)
        ensures
            whirlpool_listing_is(*item, rd, id, slot, r),
    {
        let ghost keys = seq![key_of(item.address), key_of(item.token_mint_a), key_of(item.token_mint_b),
            key_of(item.token_vault_a), key_of(item.token_vault_b)];
        let pubkey = match address_from_str(item.address.as_str()) {
            Some(pk) => pk,
            None => return Err(ListingSkip::InvalidAddress),
        };
        let mint_a = match address_from_str(item.token_mint_a.as_str()) {
            Some(pk) => pk,
            None => return Err(ListingSkip::InvalidAddress),
        };
        let mint_b = match address_from_str(item.token_mint_b.as_str()) {
            Some(pk) => pk,
            None => return Err(ListingSkip::InvalidAddress),
        };
        let vault_a = match address_from_str(item.token_vault_a.as_str()) {
            Some(pk) => pk,
            None => return Err(ListingSkip::InvalidAddress),
        };
        let vault_b = match address_from_str(item.token_vault_b.as_str()) {
            Some(pk) => pk,
            None => return Err(ListingSkip::InvalidAddress),
        };
        proof {
            assert forall|i: int| 0 <= i < 5 implies #[trigger] keys[i] is Some by {}
        }
        let liquidity_text = item.liquidity.as_str();
        let price_text = item.sqrt_price.as_str();
        proof {
            assert(liquidity_text.spec_bytes() == encode_utf8(item.liquidity@));
            assert(price_text.spec_bytes() == encode_utf8(item.sqrt_price@));
        }
        let liquidity = match parse_u128(liquidity_text.as_bytes()) {
            Some(v) => v,
            None => return Err(ListingSkip::InvalidNumber),
        };
        let sqrt_price = match parse_u128(price_text.as_bytes()) {
            Some(v) => v,
            None => return Err(ListingSkip::InvalidNumber),
        };
        if liquidity == 0 {
            return Err(ListingSkip::NoLiquidity);
        }
        let tvl_bits = match rd.tvl_bits {
            Some(t) => t,
            None => return Err(ListingSkip::InvalidTvl),
        };
        if rd.below_min_tvl {
            return Err(ListingSkip::LowTvl);
        }
        let token_a = PoolToken {
            mint: mint_a,
            name: item.token_a.name.clone(),
            symbol: item.token_a.symbol.clone(),
            decimals: item.token_a.decimals,
            vault: Some(vault_a),
        };
        let token_b = PoolToken {
            mint: mint_b,
            name: item.token_b.name.clone(),
            symbol: item.token_b.symbol.clone(),
            decimals: item.token_b.decimals,
            vault: Some(vault_b),
        };
        let ticks: Vec<ClmmTick> = Vec::new();
        Ok(Pool {
            metadata: PoolMetadata {
                id,
                pubkey,
                protocol: DexProtocol::Whirlpool,
                pool_type: PoolType::Clmm,
                status: PoolStatus::Active,
                token_a,
                token_b,
            },
            data: PoolData::Clmm(ClmmState {
                liquidity: Some(liquidity),
                sqrt_price_x64: Some(sqrt_price),
                current_tick_index: Some(item.tick_current_index),
                tick_spacing: item.tick_spacing,
                reserve_a: None,
                reserve_b: None,
                initialized_ticks: ticks,
            }),
            fee_rate: item.fee_rate,
            tvl_bits: Some(tvl_bits),
            last_updated_slot: slot,
        })
    }
}

impl WhirlpoolAdapter {
    /// Converts the listings `items`, `readings[i]` being the caller's
    /// reading of `items[i]`: the pools of the accepted listings in order,
    /// numbered from `next_id` on.
    pub fn convert_page(
        items: &Vec<OrcaPoolItem>,
        readings: &Vec<WhirlpoolReadings>,
        next_id: &mut PoolId,
        slot: Option<u64>,
    ) -> (r: Vec<Pool>)
        requires
            items@.len() == readings@.len(),
            *old(next_id) + items@.len() <= u32::MAX,
        ensures
            exists|rs: Seq<Result<Pool, ListingSkip>>| {
                &&& rs.len() == items@.len()
                &&& r@ == #[trigger] ok_pools(rs)
                &&& forall|i: int| 0 <= i < items@.len() ==> whirlpool_listing_is(items@[i], readings@[i],
                    page_id(*old(next_id), rs, i), slot, #[trigger] rs[i])
            },
            *final(next_id) == *old(next_id) + r@.len(),
    {
        let ghost start = *next_id;
        let ghost mut rs: Seq<Result<Pool, ListingSkip>> = Seq::empty();
        let mut pools: Vec<Pool> = Vec::new();
        let mut i: usize = 0;
        while i < items.len()
            invariant
                items@.len() == readings@.len(),
                i <= items@.len(),
                start + items@.len() <= u32::MAX,
                rs.len() == i,
                pools@ == ok_pools(rs),
                *next_id == start + pools@.len(),
                forall|k: int| 0 <= k < i ==> whirlpool_listing_is(items@[k], readings@[k], page_id(start, rs, k),
                    slot, #[trigger] rs[k]),
            decreases items@.len() - i,
        {
            let res = Self::pool_from_listing(&items[i], readings[i], *next_id, slot);
            proof {
                lemma_ok_pools_push(rs, res);
                lemma_ok_pools_len(rs);
                let new_rs = rs.push(res);
                assert forall|k: int| 0 <= k < i + 1 implies whirlpool_listing_is(items@[k], readings@[k],
                    page_id(start, new_rs, k), slot, #[trigger] new_rs[k]) by {
                    if k < i {
                        assert(new_rs[k] == rs[k]);
                        assert(new_rs.take(k) == rs.take(k));
                    } else {
                        assert(rs.take(i as int) =~= rs);
                        assert(new_rs.take(i as int) == rs.take(i as int));
                    }
                }
                rs = new_rs;
            }
            match res {
                Ok(pool) => {
                    pools.push(pool);
                    *next_id = *next_id + 1;
                },
                Err(_) => {},
            }
            i = i + 1;
        }
        pools
    }
}

} // verus!
