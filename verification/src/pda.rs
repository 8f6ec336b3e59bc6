use vstd::prelude::*;
use crate::engine::instruction_builder::{
    address_bytes, is_address, le_bytes, program_address, push_le, METEORA_DLMM_PROGRAM_ID,
    WHIRLPOOL_PROGRAM_ID,
};
use crate::error::EngineError;
use crate::pool::PubkeyBytes;
use vstd::string::StringSliceAdditionalSpecFns;

verus! {

/// The program-derived address (and bump seed) that `try_find_program_address`
/// finds for `seeds` under `program_id`, if any: the first bump seed, from 255
/// down, whose SHA-256 hash with the seeds is off the ed25519 curve.
pub uninterp spec fn program_address_of(seeds: Seq<Seq<u8>>, program_id: Seq<u8>) -> Option<(Seq<u8>, u8)>;

/// The byte strings of `seeds`.
pub open spec fn seed_bytes(seeds: Seq<Vec<u8>>) -> Seq<Seq<u8>> {
    seeds.map_values(|s: Vec<u8>| s@)
}

/// Calls `Address::try_find_program_address`. Its result is named; the source
/// shows that it finds nothing when there are 16 seeds or more, or a seed
/// longer than 32 bytes.
#[verifier::external_body]
fn try_find_program_address(seeds: &Vec<Vec<u8>>, program_id: &PubkeyBytes) -> (r: Option<(PubkeyBytes, u8)>)
    ensures
        match r {
            Some((a, bump)) => program_address_of(seed_bytes(seeds@), program_id.bytes()) == Some((a.bytes(), bump)),
            None => program_address_of(seed_bytes(seeds@), program_id.bytes()) is None,
        },
        seeds@.len() >= 16 ==> r is None,
        (exists|i: int| 0 <= i < seeds@.len() && #[trigger] seeds@[i]@.len() > 32) ==> r is None,
{
    let slices: Vec<&[u8]> = seeds.iter().map(|s| s.as_slice()).collect();
    solana_address::Address::try_find_program_address(&slices, &solana_address::Address::from(program_id.0))
        .map(|(address, bump)| (PubkeyBytes(address.to_bytes()), bump))
}

/// Decimal digits of `n`, most significant first.
pub open spec fn decimal_digits(n: nat) -> Seq<u8>
    decreases n,
{
    if n < 10 {
        seq![(48 + n) as u8]
    } else {
        decimal_digits(n / 10).push((48 + n % 10) as u8)
    }
}

/// ASCII decimal representation of `x` (a leading `-` when negative).
pub open spec fn i32_decimal(x: i32) -> Seq<u8> {
    if x < 0 {
        seq![45u8] + decimal_digits((-(x as int)) as nat)
    } else {
        decimal_digits(x as nat)
    }
}

/// The ASCII decimal representation of `x`, as `i32::to_string` writes it.
pub fn i32_to_decimal(x: i32) -> (r: Vec<u8>)
    ensures
        r@ == i32_decimal(x),
{
    let negative = x < 0;
    let mag: u64 = if negative { (-(x as i64)) as u64 } else { x as u64 };
    let mut m: u64 = mag;
    let mut rev: Vec<u8> = Vec::new();
    let mut done = false;
    while !done
        invariant
            !done ==> m > 0 || rev@.len() == 0,
            !done && rev@.len() > 0 ==> decimal_digits(mag as nat) == decimal_digits(m as nat) + rev@.reverse(),
            !done && rev@.len() == 0 ==> m == mag,
            done ==> decimal_digits(mag as nat) == rev@.reverse(),
        decreases (if done { 0 } else { m + 1 }),
    {
        let d = (m % 10) as u8;
        let ghost before = rev@;
        rev.push(48 + d);
        proof {
            assert(rev@.reverse() =~= seq![(48 + d) as u8] + before.reverse());
            if m >= 10 {
                assert(decimal_digits(m as nat) == decimal_digits((m / 10) as nat).push((48 + m % 10) as u8));
                assert(decimal_digits(m as nat) + before.reverse()
                    =~= decimal_digits((m / 10) as nat) + rev@.reverse());
            } else {
                assert(decimal_digits(m as nat) == seq![(48 + m) as u8]);
            }
        }
        m = m / 10;
        if m == 0 {
            done = true;
        }
    }
    let mut out: Vec<u8> = Vec::new();
    if negative {
        out.push(45u8);
    }
    let n = rev.len();
    let mut j: usize = n;
    let ghost prefix = out@;
    while j > 0
        invariant
            j <= n == rev@.len(),
            out@ == prefix + rev@.reverse().subrange(0, (n - j) as int),
        decreases j,
    {
        j = j - 1;
        out.push(rev[j]);
        proof {
            assert(rev@.reverse().subrange(0, (n - j) as int)
                =~= rev@.reverse().subrange(0, (n - j - 1) as int).push(rev@[j as int]));
        }
    }
    proof {
        assert(rev@.reverse().subrange(0, n as int) =~= rev@.reverse());
        if negative {
            assert(mag == -(x as int));
        }
    }
    out
}

/// ASCII `tick_array`.
pub open spec fn tick_array_seed() -> Seq<u8> {
    seq![116u8, 105, 99, 107, 95, 97, 114, 114, 97, 121]
}

/// ASCII `bin_array`.
pub open spec fn bin_array_seed() -> Seq<u8> {
    seq![98u8, 105, 110, 95, 97, 114, 114, 97, 121]
}

fn bytes_of(s: &[u8]) -> (r: Vec<u8>)
    ensures
        r@ == s@,
{
    let mut out: Vec<u8> = Vec::new();
    let mut i: usize = 0;
    while i < s.len()
        invariant
            i <= s@.len(),
            out@ == s@.subrange(0, i as int),
        decreases s@.len() - i,
    {
        out.push(s[i]);
        proof {
            assert(s@.subrange(0, i + 1) =~= s@.subrange(0, i as int).push(s@[i as int]));
        }
        i = i + 1;
    }
    proof {
        assert(s@.subrange(0, s@.len() as int) =~= s@);
    }
    out
}

/// Outcome of deriving an address from `seeds` under the program whose
/// base58 address is `program`.
pub open spec fn pda_result(r: Result<PubkeyBytes, EngineError>, seeds: Seq<Seq<u8>>, program: Seq<u8>) -> bool {
    if !is_address(program) {
        r == Err::<PubkeyBytes, EngineError>(EngineError::InvalidProgramId)
    } else {
        match program_address_of(seeds, address_bytes(program)) {
            Some((a, _)) => r matches Ok(pk) && pk.bytes() == a,
            None => r == Err::<PubkeyBytes, EngineError>(EngineError::NoProgramAddress),
        }
    }
}

/// Address of the Whirlpool tick array starting at `start_tick_index`:
/// seeds `tick_array`, the pool address and the decimal start index.
pub fn derive_whirlpool_tick_array_pda(whirlpool: PubkeyBytes, start_tick_index: i32) -> (r: Result<PubkeyBytes, EngineError>)
    ensures
        pda_result(r, seq![tick_array_seed(), whirlpool.bytes(), i32_decimal(start_tick_index)],
            WHIRLPOOL_PROGRAM_ID.spec_bytes()),
{
    let program_id = match program_address(WHIRLPOOL_PROGRAM_ID) {
        Ok(pk) => pk,
        Err(e) => return Err(e),
    };
    let mut seeds: Vec<Vec<u8>> = Vec::new();
    let tag: [u8; 10] = [116, 105, 99, 107, 95, 97, 114, 114, 97, 121];
    seeds.push(bytes_of(&tag));
    seeds.push(bytes_of(&whirlpool.0));
    seeds.push(i32_to_decimal(start_tick_index));
    proof {
        assert(tag@ =~= tick_array_seed());
        assert(seed_bytes(seeds@) =~= seq![tick_array_seed(), whirlpool.bytes(), i32_decimal(start_tick_index)]);
    }
    match try_find_program_address(&seeds, &program_id) {
        Some((address, _)) => Ok(address),
        None => Err(EngineError::NoProgramAddress),
    }
}

/// Address of the Meteora DLMM bin array with index `index`: seeds
/// `bin_array`, the pair address and the index as 8 little-endian bytes.
pub fn derive_meteora_bin_array_pda(lb_pair: PubkeyBytes, index: i64) -> (r: Result<PubkeyBytes, EngineError>)
    ensures
        pda_result(r, seq![bin_array_seed(), lb_pair.bytes(), le_bytes((index as u64) as nat, 8)],
            METEORA_DLMM_PROGRAM_ID.spec_bytes()),
{
    let program_id = match program_address(METEORA_DLMM_PROGRAM_ID) {
        Ok(pk) => pk,
        Err(e) => return Err(e),
    };
    let mut seeds: Vec<Vec<u8>> = Vec::new();
    let tag: [u8; 9] = [98, 105, 110, 95, 97, 114, 114, 97, 121];
    seeds.push(bytes_of(&tag));
    seeds.push(bytes_of(&lb_pair.0));
    let mut le: Vec<u8> = Vec::new();
    push_le(&mut le, (index as u64) as u128, 8);
    seeds.push(le);
    proof {
        assert(tag@ =~= bin_array_seed());
        assert(seed_bytes(seeds@) =~= seq![bin_array_seed(), lb_pair.bytes(), le_bytes((index as u64) as nat, 8)]);
    }
    match try_find_program_address(&seeds, &program_id) {
        Some((address, _)) => Ok(address),
        None => Err(EngineError::NoProgramAddress),
    }
}

} // verus!
