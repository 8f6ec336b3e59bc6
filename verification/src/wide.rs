use vstd::prelude::*;
use vstd::arithmetic::div_mod::*;
use vstd::arithmetic::mul::*;
use vstd::arithmetic::power2::*;
use vstd::bits::*;

verus! {

/// 2^64 as a mathematical integer.
pub open spec fn two64() -> int {
    0x1_0000_0000_0000_0000int
}

/// 2^128 as a mathematical integer.
pub open spec fn two128() -> int {
    0x1_0000_0000_0000_0000_0000_0000_0000_0000int
}

/// The value of the 256-bit number whose high and low 128-bit words are `hi` and `lo`.
pub open spec fn u256_value(hi: u128, lo: u128) -> int {
    hi * two128() + lo
}

proof fn lemma_split_u128(x: u128)
    ensures
        x & 0xffff_ffff_ffff_ffffu128 == x % 0x1_0000_0000_0000_0000u128,
        x >> 64u128 == x / 0x1_0000_0000_0000_0000u128,
        x == (x >> 64u128) * two64() + (x & 0xffff_ffff_ffff_ffffu128),
        x >> 64u128 < two64(),
        x & 0xffff_ffff_ffff_ffffu128 < two64(),
{
    assert(x & 0xffff_ffff_ffff_ffffu128 == x % 0x1_0000_0000_0000_0000u128) by (bit_vector);
    assert(x >> 64u128 == x / 0x1_0000_0000_0000_0000u128) by (bit_vector);
}

proof fn lemma_join_u128(low: u128, m: u128)
    requires
        low < two64(),
    ensures
        low | (m << 64u128) == low + (m % 0x1_0000_0000_0000_0000u128) * two64(),
        (m << 64u128) == (m % 0x1_0000_0000_0000_0000u128) * two64(),
{
    assert(low < 0x1_0000_0000_0000_0000u128 ==> low | (m << 64u128) == low + (m
        % 0x1_0000_0000_0000_0000u128) * 0x1_0000_0000_0000_0000u128) by (bit_vector);
    assert((m << 64u128) == (m % 0x1_0000_0000_0000_0000u128) * 0x1_0000_0000_0000_0000u128)
        by (bit_vector);
}

proof fn lemma_product_expansion(a: int, b: int, a1: int, a0: int, b1: int, b0: int)
    requires
        a == a1 * two64() + a0,
        b == b1 * two64() + b0,
    ensures
        a * b == (a1 * b1) * two128() + (a0 * b1 + a1 * b0) * two64() + a0 * b0,
{
    assert(a * b == (a1 * b1) * (two64() * two64()) + (a0 * b1 + a1 * b0) * two64() + a0 * b0)
        by (nonlinear_arith)
        requires
            a == a1 * two64() + a0,
            b == b1 * two64() + b0,
    ;
}

proof fn lemma_small_product(x: int, y: int)
    requires
        0 <= x < two64(),
        0 <= y < two64(),
    ensures
        0 <= x * y < two128(),
{
    assert(0 <= x * y < two128()) by (nonlinear_arith)
        requires
            0 <= x < two64(),
            0 <= y < two64(),
    ;
}

/// Full 128 x 128 -> 256-bit multiplication; returns the high and low words.
pub fn mul_u128_u128(a: u128, b: u128) -> (r: (u128, u128))
    ensures
        u256_value(r.0, r.1) == a * b,
{
    let mask: u128 = 0xffff_ffff_ffff_ffff;
    let a0 = a & mask;
    let a1 = a >> 64;
    let b0 = b & mask;
    let b1 = b >> 64;
    proof {
        lemma_split_u128(a);
        lemma_split_u128(b);
        lemma_small_product(a0 as int, b0 as int);
        lemma_small_product(a0 as int, b1 as int);
        lemma_small_product(a1 as int, b0 as int);
        lemma_small_product(a1 as int, b1 as int);
    }
    let p0 = a0 * b0;
    let p1 = a0 * b1;
    let p2 = a1 * b0;
    let p3 = a1 * b1;
    proof {
        lemma_split_u128(p0);
        lemma_split_u128(p1);
        lemma_split_u128(p2);
    }
    let middle_low = (p0 >> 64) + (p1 & mask) + (p2 & mask);
    proof {
        lemma_split_u128(middle_low);
        lemma_join_u128(p0 & mask, middle_low);
        lemma_product_expansion(a as int, b as int, a1 as int, a0 as int, b1 as int, b0 as int);
        let hi_v = p3 + (p1 >> 64u128) + (p2 >> 64u128) + (middle_low >> 64u128);
        let lo_v = (p0 & mask) + (middle_low & mask) * two64();
        assert(a * b == hi_v * two128() + lo_v) by (nonlinear_arith)
            requires
                a * b == p3 * two128() + (p1 + p2) * two64() + p0,
                p1 == (p1 >> 64u128) * two64() + (p1 & mask),
                p2 == (p2 >> 64u128) * two64() + (p2 & mask),
                p0 == (p0 >> 64u128) * two64() + (p0 & mask),
                middle_low == (p0 >> 64u128) + (p1 & mask) + (p2 & mask),
                middle_low == (middle_low >> 64u128) * two64() + (middle_low & mask),
                hi_v == p3 + (p1 >> 64u128) + (p2 >> 64u128) + (middle_low >> 64u128),
                lo_v == (p0 & mask) + (middle_low & mask) * two64(),
                two128() == two64() * two64(),
        ;
        assert(0 <= lo_v < two128()) by (nonlinear_arith)
            requires
                lo_v == (p0 & mask) + (middle_low & mask) * two64(),
                0 <= (p0 & mask) < two64(),
                0 <= (middle_low & mask) < two64(),
                two128() == two64() * two64(),
        ;
        assert(a * b < two128() * two128()) by (nonlinear_arith)
            requires
                a < two128(),
                b < two128(),
                0 <= a,
                0 <= b,
        ;
        assert(hi_v < two128()) by (nonlinear_arith)
            requires
                a * b == hi_v * two128() + lo_v,
                0 <= lo_v,
                a * b < two128() * two128(),
                0 <= hi_v,
        ;
    }
    let lo = (p0 & mask) | (middle_low << 64);
    let hi = p3 + (p1 >> 64) + (p2 >> 64) + (middle_low >> 64);
    (hi, lo)
}


/// What `div_u256_by_u128` returns: the exact quotient when it fits in 128 bits.
pub open spec fn div_u256_spec(hi: u128, lo: u128, divisor: u128) -> Option<u128> {
    if divisor == 0 || u256_value(hi, lo) / divisor as int >= two128() {
        None
    } else {
        Some((u256_value(hi, lo) / divisor as int) as u128)
    }
}

proof fn lemma_pow2_128()
    ensures
        pow2(128) == two128(),
        pow2(64) == two64(),
{
    lemma2_to64();
    lemma2_to64_rest();
    lemma_pow2_adds(64, 64);
}

/// One step of binary long division: bringing down the next bit of `lo`.
proof fn lemma_next_bit(hi: u128, lo: u128, i: nat)
    requires
        1 <= i <= 128,
    ensures
        hi * pow2((128 - (i - 1)) as nat) + lo as nat / pow2((i - 1) as nat) == 2 * (hi * pow2(
            (128 - i) as nat,
        ) + lo as nat / pow2(i)) + ((lo >> ((i - 1) as u128)) & 1u128),
        (lo >> ((i - 1) as u128)) & 1u128 <= 1,
{
    let j = (i - 1) as nat;
    lemma_pow2_pos(j);
    lemma_pow2_pos(i);
    lemma_u128_shr_is_div(lo, j as u128);
    let s = lo >> (j as u128);
    assert(s & 1u128 == s % 2u128) by (bit_vector);
    // lo / 2^j == 2 * (lo / 2^i) + (lo / 2^j) % 2
    lemma_pow2_adds(j, 1);
    lemma2_to64();
    lemma_div_denominator(lo as int, pow2(j) as int, 2);
    lemma_fundamental_div_mod((lo as nat / pow2(j)) as int, 2);
    // hi * 2^(128 - j) == 2 * hi * 2^(128 - i)
    lemma_pow2_adds((128 - i) as nat, 1);
    assert(hi * pow2((128 - j) as nat) == 2 * (hi * pow2((128 - i) as nat))) by (nonlinear_arith)
        requires
            pow2((128 - j) as nat) == pow2((128 - i) as nat) * 2,
    ;
}

/// Divides the 256-bit number `(hi, lo)` by `divisor`; `None` when the
/// divisor is zero or the quotient does not fit in 128 bits.
pub fn div_u256_by_u128(hi: u128, lo: u128, divisor: u128) -> (r: Option<u128>)
    ensures
        r == div_u256_spec(hi, lo, divisor),
{
    if divisor == 0 {
        return None;
    }
    if hi >= divisor {
        proof {
            assert(u256_value(hi, lo) >= divisor * two128()) by (nonlinear_arith)
                requires
                    hi >= divisor,
                    lo >= 0,
            ;
            lemma_div_is_ordered(divisor * two128(), u256_value(hi, lo), divisor as int);
            lemma_div_by_multiple(two128(), divisor as int);
            lemma_mul_is_commutative(divisor as int, two128());
        }
        return None;
    }
    let mut rem: u128 = hi;
    let mut q: u128 = 0;
    let mut i: u32 = 128;
    proof {
        lemma_pow2_128();
        lemma2_to64();
        lemma_small_div_converse_helper(lo);
        assert(pow2(0) == 1);
        assert(hi * pow2(0) + lo as nat / pow2(128) == q * divisor + rem);
    }
    while i > 0
        invariant
            divisor > 0,
            i <= 128,
            rem < divisor,
            hi < divisor,
            hi * pow2((128 - i) as nat) + lo as nat / pow2(i as nat) == q * divisor + rem,
            q < pow2((128 - i) as nat),
        decreases i,
    {
        proof {
            lemma_next_bit(hi, lo, i as nat);
            lemma_pow2_adds((128 - i) as nat, 1);
            lemma_pow2_128();
        }
        let ghost old_q = q;
        let ghost old_rem = rem;
        let ghost old_i = i;
        proof {
            lemma2_to64();
            assert(pow2((128 - old_i + 1) as nat) == pow2((128 - old_i) as nat) * 2);
            assert(pow2((128 - old_i + 1) as nat) <= two128()) by {
                if 128 - old_i + 1 < 128 {
                    lemma_pow2_strictly_increases((128 - old_i + 1) as nat, 128);
                }
            }
            assert(2 * q + 1 < two128());
        }
        i = i - 1;
        let bit = (lo >> (i as u128)) & 1;
        assert(hi * pow2((128 - i) as nat) + lo as nat / pow2(i as nat) == 2 * (old_q * divisor
            + old_rem) + bit);
        if rem + bit >= divisor - rem {
            rem = (rem + bit) - (divisor - rem);
            q = 2 * q + 1;
            proof {
                assert(q * divisor == 2 * (old_q * divisor) + divisor) by (nonlinear_arith)
                    requires
                        q == 2 * old_q + 1,
                ;
            }
        } else {
            rem = 2 * rem + bit;
            q = 2 * q;
            proof {
                assert(q * divisor == 2 * (old_q * divisor)) by (nonlinear_arith)
                    requires
                        q == 2 * old_q,
                ;
            }
        }
        proof {
            lemma_pow2_adds((128 - old_i) as nat, 1);
        }
    }
    proof {
        lemma2_to64();
        lemma_pow2_128();
        assert(pow2(0) == 1);
        assert(lo as nat / pow2(0) == lo);
        assert(u256_value(hi, lo) == q * divisor + rem);
        lemma_fundamental_div_mod_converse(u256_value(hi, lo), divisor as int, q as int, rem as int);
    }
    Some(q)
}

proof fn lemma_small_div_converse_helper(lo: u128)
    ensures
        lo as int / two128() == 0,
{
    lemma_basic_div(lo as int, two128());
}

} // verus!
