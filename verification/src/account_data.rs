use vstd::prelude::*;
use vstd::arithmetic::power2::*;
use vstd::arithmetic::mul::*;
use crate::error::AccountDataError;
use crate::pool::PubkeyBytes;

verus! {

/// Unsigned little-endian value of a byte string.
pub open spec fn le_value(s: Seq<u8>) -> nat
    decreases s.len(),
{
    if s.len() == 0 {
        0
    } else {
        s[0] as nat + 256 * le_value(s.drop_first())
    }
}

/// Two's-complement reading of an unsigned `bits`-bit value.
pub open spec fn signed_value(v: nat, bits: nat) -> int {
    if v >= pow2((bits - 1) as nat) {
        v - pow2(bits)
    } else {
        v as int
    }
}

/// The `width` bytes of `data` starting at `offset`.
pub open spec fn field(data: Seq<u8>, offset: int, width: int) -> Seq<u8> {
    data.subrange(offset, offset + width)
}

/// Outcome of reading a `width`-byte little-endian field at `offset`.
pub open spec fn read_spec(data: Seq<u8>, offset: usize, width: nat) -> Result<nat, AccountDataError> {
    if offset + width > usize::MAX {
        Err(AccountDataError::OffsetOverflow)
    } else if offset + width > data.len() {
        Err(AccountDataError::OutOfBounds { offset })
    } else {
        Ok(le_value(field(data, offset as int, width as int)))
    }
}

pub(crate) proof fn lemma_le_value_bound(s: Seq<u8>)
    ensures
        le_value(s) < pow2(8 * s.len()),
    decreases s.len(),
{
    if s.len() == 0 {
        lemma2_to64();
    } else {
        lemma_le_value_bound(s.drop_first());
        lemma_pow2_adds(8, 8 * (s.len() - 1) as nat);
        lemma2_to64();
        assert(8 * s.len() == 8 + 8 * (s.len() - 1));
        let r = le_value(s.drop_first());
        let p = pow2(8 * (s.drop_first().len()));
        assert(s[0] as nat + 256 * r < 256 * p) by (nonlinear_arith)
            requires
                r < p,
                s[0] < 256,
        ;
    }
}

proof fn lemma_le_value_step(data: Seq<u8>, lo: int, hi: int)
    requires
        0 <= lo < hi <= data.len(),
    ensures
        le_value(data.subrange(lo, hi)) == data[lo] as nat + 256 * le_value(data.subrange(lo + 1, hi)),
{
    assert(data.subrange(lo, hi).drop_first() =~= data.subrange(lo + 1, hi));
}

proof fn lemma_pow2_120()
    ensures
        pow2(120) == 0x100_0000_0000_0000_0000_0000_0000_0000u128,
{
    lemma2_to64();
    lemma2_to64_rest();
    lemma_pow2_adds(64, 56);
    assert(pow2(64) == 0x1_0000_0000_0000_0000nat);
    assert(pow2(56) == 0x100_0000_0000_0000nat);
    assert(0x1_0000_0000_0000_0000nat * 0x100_0000_0000_0000nat == 0x100_0000_0000_0000_0000_0000_0000_0000nat) by (nonlinear_arith);
}

/// Reads an unsigned little-endian integer of `width` (at most 16) bytes at `offset`.
fn read_le(data: &[u8], offset: usize, width: usize) -> (r: Result<u128, AccountDataError>)
    requires
        width <= 16,
    ensures
        match read_spec(data@, offset, width as nat) {
            Ok(v) => r == Ok::<u128, AccountDataError>(v as u128) && v < pow2(8 * width as nat),
            Err(e) => r == Err::<u128, AccountDataError>(e),
        },
{
    let end = match offset.checked_add(width) {
        Some(end) => end,
        None => return Err(AccountDataError::OffsetOverflow),
    };
    if end > data.len() {
        return Err(AccountDataError::OutOfBounds { offset });
    }
    let mut acc: u128 = 0;
    let mut k: usize = width;
    proof {
        assert(data@.subrange(end as int, end as int) =~= Seq::<u8>::empty());
    }
    while k > 0
        invariant
            k <= width <= 16,
            end == offset + width,
            end <= data@.len(),
            acc == le_value(data@.subrange(offset + k, end as int)),
        decreases k,
    {
        proof {
            lemma_le_value_bound(data@.subrange(offset + k, end as int));
            if 8 * (width - k) < 120 {
                lemma_pow2_strictly_increases(8 * (width - k) as nat, 120);
            }
            lemma_pow2_120();
            lemma_le_value_step(data@, offset + k - 1, end as int);
        }
        k = k - 1;
        acc = acc * 256 + data[offset + k] as u128;
    }
    proof {
        lemma_le_value_bound(data@.subrange(offset as int, end as int));
    }
    Ok(acc)
}

/// Outcome of copying the 32-byte public key stored at `offset`.
pub open spec fn pubkey_spec(data: Seq<u8>, offset: usize) -> Result<Seq<u8>, AccountDataError> {
    if offset + 32 > usize::MAX {
        Err(AccountDataError::OffsetOverflow)
    } else if offset + 32 > data.len() {
        Err(AccountDataError::OutOfBounds { offset })
    } else {
        Ok(field(data, offset as int, 32))
    }
}

/// Reads the 32-byte public key stored at `offset`.
pub fn read_pubkey(data: &[u8], offset: usize) -> (r: Result<PubkeyBytes, AccountDataError>)
    ensures
        match pubkey_spec(data@, offset) {
            Ok(bytes) => r matches Ok(pk) && pk.bytes() == bytes,
            Err(e) => r == Err::<PubkeyBytes, AccountDataError>(e),
        },
{
    let end = match offset.checked_add(32) {
        Some(end) => end,
        None => return Err(AccountDataError::OffsetOverflow),
    };
    if end > data.len() {
        return Err(AccountDataError::OutOfBounds { offset });
    }
    let mut arr = [0u8; 32];
    let mut k: usize = 0;
    while k < 32
        invariant
            k <= 32,
            end == offset + 32,
            end <= data@.len(),
            arr@.len() == 32,
            forall|j: int| 0 <= j < k ==> arr@[j] == data@[offset + j],
        decreases 32 - k,
    {
        arr[k] = data[offset + k];
        k = k + 1;
    }
    assert(arr@ =~= field(data@, offset as int, 32));
    Ok(PubkeyBytes(arr))
}

/// Reads a little-endian `u16` at `offset`.
pub fn read_u16(data: &[u8], offset: usize) -> (r: Result<u16, AccountDataError>)
    ensures
        match read_spec(data@, offset, 2) {
            Ok(v) => r matches Ok(x) && x == v,
            Err(e) => r == Err::<u16, AccountDataError>(e),
        },
{
    proof { lemma2_to64(); }
    match read_le(data, offset, 2) {
        Ok(v) => Ok(v as u16),
        Err(e) => Err(e),
    }
}

/// Reads a little-endian `u64` at `offset`.
pub fn read_u64(data: &[u8], offset: usize) -> (r: Result<u64, AccountDataError>)
    ensures
        match read_spec(data@, offset, 8) {
            Ok(v) => r matches Ok(x) && x == v,
            Err(e) => r == Err::<u64, AccountDataError>(e),
        },
{
    proof { lemma2_to64_rest(); }
    match read_le(data, offset, 8) {
        Ok(v) => Ok(v as u64),
        Err(e) => Err(e),
    }
}

/// Reads a little-endian `u128` at `offset`.
pub fn read_u128(data: &[u8], offset: usize) -> (r: Result<u128, AccountDataError>)
    ensures
        match read_spec(data@, offset, 16) {
            Ok(v) => r matches Ok(x) && x == v,
            Err(e) => r == Err::<u128, AccountDataError>(e),
        },
{
    proof { lemma_pow2_127_128(); }
    read_le(data, offset, 16)
}

/// Reads a little-endian two's-complement `i32` at `offset`.
pub fn read_i32(data: &[u8], offset: usize) -> (r: Result<i32, AccountDataError>)
    ensures
        match read_spec(data@, offset, 4) {
            Ok(v) => r matches Ok(x) && x == signed_value(v, 32),
            Err(e) => r == Err::<i32, AccountDataError>(e),
        },
{
    proof { lemma2_to64(); }
    match read_le(data, offset, 4) {
        Ok(v) => if v < 0x8000_0000 {
            Ok(v as i32)
        } else {
            Ok(((v - 0x8000_0000) as i32) + i32::MIN)
        },
        Err(e) => Err(e),
    }
}

/// Reads a little-endian two's-complement `i64` at `offset`.
pub fn read_i64(data: &[u8], offset: usize) -> (r: Result<i64, AccountDataError>)
    ensures
        match read_spec(data@, offset, 8) {
            Ok(v) => r matches Ok(x) && x == signed_value(v, 64),
            Err(e) => r == Err::<i64, AccountDataError>(e),
        },
{
    proof { lemma2_to64(); lemma2_to64_rest(); }
    match read_le(data, offset, 8) {
        Ok(v) => if v < 0x8000_0000_0000_0000 {
            Ok(v as i64)
        } else {
            Ok(((v - 0x8000_0000_0000_0000) as i64) + i64::MIN)
        },
        Err(e) => Err(e),
    }
}

/// Reads a little-endian two's-complement `i128` at `offset`.
pub fn read_i128(data: &[u8], offset: usize) -> (r: Result<i128, AccountDataError>)
    ensures
        match read_spec(data@, offset, 16) {
            Ok(v) => r matches Ok(x) && x == signed_value(v, 128),
            Err(e) => r == Err::<i128, AccountDataError>(e),
        },
{
    proof { lemma_pow2_127_128(); }
    match read_le(data, offset, 16) {
        Ok(v) => if v < 0x8000_0000_0000_0000_0000_0000_0000_0000 {
            Ok(v as i128)
        } else {
            Ok(((v - 0x8000_0000_0000_0000_0000_0000_0000_0000) as i128) + i128::MIN)
        },
        Err(e) => Err(e),
    }
}

proof fn lemma_pow2_127_128()
    ensures
        pow2(127) == 0x8000_0000_0000_0000_0000_0000_0000_0000nat,
        pow2(128) == 0x1_0000_0000_0000_0000_0000_0000_0000_0000nat,
{
    lemma2_to64();
    lemma2_to64_rest();
    lemma_pow2_adds(64, 63);
    lemma_pow2_adds(64, 64);
    assert(0x1_0000_0000_0000_0000nat * 0x8000_0000_0000_0000nat
        == 0x8000_0000_0000_0000_0000_0000_0000_0000nat) by (nonlinear_arith);
    assert(0x1_0000_0000_0000_0000nat * 0x1_0000_0000_0000_0000nat
        == 0x1_0000_0000_0000_0000_0000_0000_0000_0000nat) by (nonlinear_arith);
}

} // verus!
