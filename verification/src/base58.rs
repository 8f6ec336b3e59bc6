use vstd::prelude::*;
use vstd::string::StringSliceAdditionalSpecFns;
use crate::account_data::le_value;
use crate::pool::PubkeyBytes;

verus! {

/// Why a base58 string could not be decoded into an address.
#[derive(Debug, Clone, Copy, PartialEq, Eq, Structural)]
pub enum AddressError {
    /// A byte outside the Bitcoin base58 alphabet; carries the first such byte.
    InvalidCharacter { byte: u8 },
    /// The decoded byte string is not 32 bytes long; carries its length.
    InvalidLength { len: usize },
}

/// Value of a byte in the Bitcoin base58 alphabet
/// `123456789ABCDEFGHJKLMNPQRSTUVWXYZabcdefghijkmnopqrstuvwxyz`.
pub open spec fn digit_spec(c: u8) -> Option<nat> {
    if 0x31 <= c <= 0x39 {
        Some((c - 0x31) as nat)
    } else if 0x41 <= c <= 0x48 {
        Some((c - 0x41 + 9) as nat)
    } else if 0x4a <= c <= 0x4e {
        Some((c - 0x4a + 17) as nat)
    } else if 0x50 <= c <= 0x5a {
        Some((c - 0x50 + 22) as nat)
    } else if 0x61 <= c <= 0x6b {
        Some((c - 0x61 + 33) as nat)
    } else if 0x6d <= c <= 0x7a {
        Some((c - 0x6d + 44) as nat)
    } else {
        None
    }
}

/// Whether every byte of `s` is a base58 digit.
pub open spec fn all_digits(s: Seq<u8>) -> bool {
    forall|i: int| 0 <= i < s.len() ==> (#[trigger] digit_spec(s[i])) is Some
}

/// Number of leading `'1'` characters (the digit zero) of `s`.
pub open spec fn leading_ones(s: Seq<u8>) -> nat
    decreases s.len(),
{
    if s.len() == 0 || s[0] != 0x31 {
        0
    } else {
        1 + leading_ones(s.drop_first())
    }
}

/// Number written by the base58 digits `s`, most significant first.
pub open spec fn b58_value(s: Seq<u8>) -> nat
    decreases s.len(),
{
    if s.len() == 0 {
        0
    } else {
        b58_value(s.drop_last()) * 58 + digit_spec(s.last()).unwrap_or(0)
    }
}

/// Big-endian value of a byte string.
pub open spec fn be_value(s: Seq<u8>) -> nat
    decreases s.len(),
{
    if s.len() == 0 {
        0
    } else {
        (be_value(s.drop_last()) * 256 + s.last()) as nat
    }
}

/// `256^k`.
pub open spec fn pow256(k: nat) -> nat
    decreases k,
{
    if k == 0 {
        1
    } else {
        256 * pow256((k - 1) as nat)
    }
}

/// What decoding `s` yields when every byte of it is a base58 digit: as many
/// zero bytes as `s` has leading `'1'`s, then the shortest big-endian byte
/// string (no leading zero byte) whose value is the number the remaining
/// digits write.
pub open spec fn is_decoding_of(s: Seq<u8>, out: Seq<u8>) -> bool {
    let k = leading_ones(s);
    &&& k <= out.len()
    &&& forall|i: int| 0 <= i < k ==> out[i] == 0u8
    &&& be_value(out.subrange(k as int, out.len() as int)) == b58_value(s.subrange(k as int, s.len() as int))
    &&& (out.len() == k || out[k as int] != 0u8)
}

/// What a decode of `s` that stops at the first invalid byte reports.
pub open spec fn is_first_invalid(s: Seq<u8>, byte: u8) -> bool {
    exists|i: int|
        0 <= i < s.len() && s[i] == byte && digit_spec(byte) is None
            && #[trigger] all_digits(s.subrange(0, i))
}

proof fn lemma_be_bound(x: Seq<u8>)
    ensures
        be_value(x) < pow256(x.len()),
    decreases x.len(),
{
    if x.len() > 0 {
        lemma_be_bound(x.drop_last());
        assert(pow256(x.len()) == 256 * pow256((x.len() - 1) as nat));
    }
}

proof fn lemma_be_lower(x: Seq<u8>)
    requires
        x.len() > 0,
        x[0] != 0u8,
    ensures
        be_value(x) >= pow256((x.len() - 1) as nat),
    decreases x.len(),
{
    if x.len() > 1 {
        assert(x.drop_last()[0] == x[0]);
        lemma_be_lower(x.drop_last());
        assert(pow256((x.len() - 1) as nat) == 256 * pow256((x.len() - 2) as nat));
    } else {
        assert(x.drop_last() =~= Seq::<u8>::empty());
    }
}

proof fn lemma_pow256_monotone(a: nat, b: nat)
    requires
        a <= b,
    ensures
        pow256(a) <= pow256(b),
    decreases b,
{
    if a < b {
        lemma_pow256_monotone(a, (b - 1) as nat);
    }
}

/// Byte strings of equal length and equal big-endian value are equal.
proof fn lemma_be_injective(x: Seq<u8>, y: Seq<u8>)
    requires
        x.len() == y.len(),
        be_value(x) == be_value(y),
    ensures
        x == y,
    decreases x.len(),
{
    if x.len() > 0 {
        let vx = be_value(x.drop_last());
        let vy = be_value(y.drop_last());
        assert(vx * 256 + x.last() == vy * 256 + y.last());
        assert(x.last() == y.last() && vx == vy) by (nonlinear_arith)
            requires
                vx * 256 + x.last() == vy * 256 + y.last(),
                0 <= x.last() < 256,
                0 <= y.last() < 256,
                vx >= 0,
                vy >= 0,
        ;
        lemma_be_injective(x.drop_last(), y.drop_last());
        assert(x =~= x.drop_last().push(x.last()));
        assert(y =~= y.drop_last().push(y.last()));
    } else {
        assert(x =~= y);
    }
}

/// Minimal (no leading zero byte) big-endian strings of equal value are equal.
proof fn lemma_be_minimal_unique(x: Seq<u8>, y: Seq<u8>)
    requires
        x.len() == 0 || x[0] != 0u8,
        y.len() == 0 || y[0] != 0u8,
        be_value(x) == be_value(y),
    ensures
        x == y,
{
    if x.len() != y.len() {
        let (lo, hi) = if x.len() < y.len() { (x, y) } else { (y, x) };
        lemma_be_bound(lo);
        lemma_be_lower(hi);
        lemma_pow256_monotone(lo.len(), (hi.len() - 1) as nat);
        assert(false);
    }
    lemma_be_injective(x, y);
}

/// A base58 string has exactly one decoding.
pub proof fn lemma_decoding_unique(s: Seq<u8>, a: Seq<u8>, b: Seq<u8>)
    requires
        is_decoding_of(s, a),
        is_decoding_of(s, b),
    ensures
        a == b,
{
    let k = leading_ones(s) as int;
    let ta = a.subrange(k, a.len() as int);
    let tb = b.subrange(k, b.len() as int);
    if ta.len() > 0 {
        assert(ta[0] == a[k]);
    }
    if tb.len() > 0 {
        assert(tb[0] == b[k]);
    }
    lemma_be_minimal_unique(ta, tb);
    assert(a =~= a.subrange(0, k) + ta);
    assert(b =~= b.subrange(0, k) + tb);
    assert(a.subrange(0, k) =~= b.subrange(0, k));
}

/// The value of a base58 digit, or `None` for a byte outside the alphabet.
pub fn b58_digit(c: u8) -> (r: Option<u8>)
    ensures
        match digit_spec(c) {
            Some(d) => r == Some(d as u8),
            None => r is None,
        },
{
    if 0x31 <= c && c <= 0x39 {
        Some(c - 0x31)
    } else if 0x41 <= c && c <= 0x48 {
        Some(c - 0x41 + 9)
    } else if 0x4a <= c && c <= 0x4e {
        Some(c - 0x4a + 17)
    } else if 0x50 <= c && c <= 0x5a {
        Some(c - 0x50 + 22)
    } else if 0x61 <= c && c <= 0x6b {
        Some(c - 0x61 + 33)
    } else if 0x6d <= c && c <= 0x7a {
        Some(c - 0x6d + 44)
    } else {
        None
    }
}

proof fn lemma_le_push(s: Seq<u8>, b: u8)
    ensures
        le_value(s.push(b)) == le_value(s) + pow256(s.len()) * b,
    decreases s.len(),
{
    if s.len() == 0 {
        assert(s.push(b).drop_first() =~= Seq::<u8>::empty());
        assert(s.push(b)[0] == b);
        assert(le_value(s.push(b)) == b as nat + 256 * le_value(Seq::<u8>::empty()));
        assert(pow256(0) == 1);
        assert(1 * b == b);
    } else {
        assert(s.push(b).drop_first() =~= s.drop_first().push(b));
        lemma_le_push(s.drop_first(), b);
        let p = pow256((s.len() - 1) as nat);
        assert(pow256(s.len()) == 256 * p);
        assert(s.push(b)[0] == s[0]);
        assert(le_value(s.push(b)) == s[0] as nat + 256 * le_value(s.drop_first().push(b)));
        assert(256 * (p * b) == (256 * p) * b) by (nonlinear_arith);
        assert(le_value(s) == s[0] as nat + 256 * le_value(s.drop_first()));
    }
}

proof fn lemma_le_bound(s: Seq<u8>)
    ensures
        le_value(s) < pow256(s.len()),
    decreases s.len(),
{
    if s.len() > 0 {
        lemma_le_bound(s.drop_first());
    }
}

/// Reversing a little-endian byte string gives the big-endian one of equal value.
proof fn lemma_be_of_reverse(a: Seq<u8>)
    ensures
        be_value(a.reverse()) == le_value(a),
    decreases a.len(),
{
    if a.len() > 0 {
        assert(a.reverse().drop_last() =~= a.drop_first().reverse());
        lemma_be_of_reverse(a.drop_first());
    }
}

proof fn lemma_leading_ones_prefix(s: Seq<u8>, k: int)
    requires
        0 <= k <= s.len(),
        forall|i: int| 0 <= i < k ==> s[i] == 0x31u8,
        k == s.len() || s[k] != 0x31u8,
    ensures
        leading_ones(s) == k,
    decreases k,
{
    if k > 0 {
        lemma_leading_ones_prefix(s.drop_first(), k - 1);
    }
}

/// One step of the base58 accumulator: `acc := acc * 58 + digit`, on a
/// little-endian byte string.
fn mul58_add(acc: &mut Vec<u8>, digit: u8)
    requires
        digit < 58,
    ensures
        le_value(final(acc)@) == le_value(old(acc)@) * 58 + digit,
        final(acc)@.len() >= old(acc)@.len(),
        old(acc)@.len() == 0 && digit > 0 ==> final(acc)@.len() > 0,
        (old(acc)@.len() == 0 || old(acc)@.last() != 0u8) && (old(acc)@.len() > 0 || digit > 0)
            ==> final(acc)@.last() != 0u8,
{
    let ghost old_acc = acc@;
    let n = acc.len();
    let mut carry: u32 = digit as u32;
    let mut i: usize = 0;
    proof {
        assert(acc@.subrange(0, 0) =~= Seq::<u8>::empty());
        assert(old_acc.subrange(0, 0) =~= Seq::<u8>::empty());
        assert(pow256(0) == 1);
        assert(carry * pow256(0) == carry);
    }
    while i < n
        invariant
            n == old_acc.len(),
            acc@.len() == n,
            i <= n,
            carry <= 57,
            forall|j: int| i <= j < n ==> acc@[j] == old_acc[j],
            le_value(acc@.subrange(0, i as int)) + carry * pow256(i as nat)
                == le_value(old_acc.subrange(0, i as int)) * 58 + digit,
        decreases n - i,
    {
        let v: u32 = acc[i] as u32 * 58 + carry;
        let ghost prev = acc@;
        acc.set(i, (v % 256) as u8);
        proof {
            let p = pow256(i as nat);
            assert(pow256((i + 1) as nat) == 256 * p);
            assert(acc@.subrange(0, i as int) =~= prev.subrange(0, i as int));
            assert(acc@.subrange(0, i + 1) =~= acc@.subrange(0, i as int).push((v % 256) as u8));
            assert(old_acc.subrange(0, i + 1) =~= old_acc.subrange(0, i as int).push(old_acc[i as int]));
            lemma_le_push(acc@.subrange(0, i as int), (v % 256) as u8);
            lemma_le_push(old_acc.subrange(0, i as int), old_acc[i as int]);
            let o = old_acc[i as int];
            assert(v == o * 58 + carry);
            assert(p * (v % 256) + (v / 256) * (256 * p) == p * v) by (nonlinear_arith);
            assert(p * v == p * o * 58 + carry * p) by (nonlinear_arith)
                requires
                    v == o * 58 + carry,
            ;
            assert((v / 256) * (256 * p) == (v / 256) * pow256((i + 1) as nat));
        }
        carry = v / 256;
        i = i + 1;
    }
    proof {
        assert(acc@.subrange(0, n as int) =~= acc@);
        assert(old_acc.subrange(0, n as int) =~= old_acc);
    }
    if carry > 0 {
        proof {
            lemma_le_push(acc@, carry as u8);
            assert(pow256(n as nat) * (carry as u8) == carry * pow256(n as nat)) by (nonlinear_arith)
                requires
                    carry < 256,
            ;
        }
        acc.push(carry as u8);
    } else {
        proof {
            assert(carry * pow256(n as nat) == 0);
            if n > 0 && old_acc.last() != 0u8 {
                // The value grew, so the top byte cannot have become zero.
                let lo = acc@.drop_last();
                let olo = old_acc.drop_last();
                assert(acc@ =~= lo.push(acc@.last()));
                assert(old_acc =~= olo.push(old_acc.last()));
                lemma_le_push(lo, acc@.last());
                lemma_le_push(olo, old_acc.last());
                lemma_le_bound(lo);
                let p = pow256((n - 1) as nat);
                assert(p * old_acc.last() >= p) by (nonlinear_arith)
                    requires
                        old_acc.last() >= 1,
                        p >= 0,
                ;
                assert(le_value(old_acc) * 58 + digit >= le_value(old_acc)) by (nonlinear_arith);
            }
        }
    }
}

/// Decodes a base58 string (Bitcoin alphabet) into bytes.
///
/// Every leading `'1'` becomes a zero byte; the rest is the big-endian
/// representation of the number the remaining digits write. Fails on the
/// first byte outside the alphabet.
pub fn bs58_decode(input: &str) -> (r: Result<Vec<u8>, AddressError>)
    ensures
        match r {
            Ok(out) => all_digits(input.spec_bytes()) && is_decoding_of(input.spec_bytes(), out@),
            Err(AddressError::InvalidCharacter { byte }) => is_first_invalid(input.spec_bytes(), byte),
            Err(AddressError::InvalidLength { .. }) => false,
        },
        r is Ok <==> all_digits(input.spec_bytes()),
{
    let bytes = input.as_bytes();
    let ghost s = bytes@;
    let mut acc: Vec<u8> = Vec::new();
    let mut zeros: usize = 0;
    let mut p: usize = 0;
    while p < bytes.len()
        invariant
            s == bytes@,
            s == input.spec_bytes(),
            p <= s.len(),
            zeros <= p,
            all_digits(s.subrange(0, p as int)),
            forall|i: int| 0 <= i < zeros ==> s[i] == 0x31u8,
            zeros < p ==> s[zeros as int] != 0x31u8,
            zeros < p <==> acc@.len() > 0,
            acc@.len() == 0 || acc@.last() != 0u8,
            le_value(acc@) == b58_value(s.subrange(zeros as int, p as int)),
        decreases s.len() - p,
    {
        let ch = bytes[p];
        let d = match b58_digit(ch) {
            Some(d) => d,
            None => {
                proof {
                    assert(is_first_invalid(s, ch)) by {
                        assert(s[p as int] == ch);
                        assert(all_digits(s.subrange(0, p as int)));
                    }
                }
                return Err(AddressError::InvalidCharacter { byte: ch });
            }
        };
        proof {
            assert forall|i: int| 0 <= i < p + 1 implies (#[trigger] digit_spec(s.subrange(0, p + 1)[i])) is Some by {
                if i < p {
                    assert(s.subrange(0, p + 1)[i] == s.subrange(0, p as int)[i]);
                }
            }
        }
        if ch == 0x31 && acc.len() == 0 {
            zeros = zeros + 1;
            proof {
                assert(s.subrange(zeros as int, p + 1) =~= Seq::<u8>::empty());
            }
        } else {
            mul58_add(&mut acc, d);
            proof {
                let t = s.subrange(zeros as int, p + 1);
                assert(t.drop_last() =~= s.subrange(zeros as int, p as int));
                assert(t.last() == ch);
            }
        }
        p = p + 1;
    }
    proof {
        assert(s.subrange(0, s.len() as int) =~= s);
        lemma_leading_ones_prefix(s, zeros as int);
    }
    let mut out: Vec<u8> = Vec::new();
    let mut z: usize = 0;
    while z < zeros
        invariant
            z <= zeros,
            out@.len() == z,
            forall|i: int| 0 <= i < z ==> out@[i] == 0u8,
        decreases zeros - z,
    {
        out.push(0);
        z = z + 1;
    }
    let n = acc.len();
    let mut j: usize = n;
    while j > 0
        invariant
            j <= n,
            n == acc@.len(),
            out@.len() == zeros + (n - j),
            forall|i: int| 0 <= i < zeros ==> out@[i] == 0u8,
            out@.subrange(zeros as int, out@.len() as int) =~= acc@.reverse().subrange(0, (n - j) as int),
        decreases j,
    {
        j = j - 1;
        let ghost prev = out@;
        out.push(acc[j]);
        proof {
            assert(out@.subrange(zeros as int, out@.len() as int)
                =~= prev.subrange(zeros as int, prev.len() as int).push(acc@[j as int]));
            assert(acc@.reverse().subrange(0, (n - j) as int)
                =~= acc@.reverse().subrange(0, (n - j - 1) as int).push(acc@[j as int]));
        }
    }
    proof {
        assert(acc@.reverse().subrange(0, n as int) =~= acc@.reverse());
        lemma_be_of_reverse(acc@);
        let tail = out@.subrange(zeros as int, out@.len() as int);
        assert(tail =~= acc@.reverse());
        assert(s.subrange(zeros as int, s.len() as int) =~= s.subrange(zeros as int, p as int));
        if out@.len() > zeros {
            assert(out@[zeros as int] == tail[0]);
            assert(tail[0] == acc@.last());
        }
    }
    Ok(out)
}

/// Like [`bs58_decode`], with the failure reduced to `None`.
pub fn bs58_decode_opt(input: &str) -> (r: Option<Vec<u8>>)
    ensures
        match r {
            Some(out) => all_digits(input.spec_bytes()) && is_decoding_of(input.spec_bytes(), out@),
            None => !all_digits(input.spec_bytes()),
        },
{
    match bs58_decode(input) {
        Ok(out) => Some(out),
        Err(_) => None,
    }
}

/// Decodes a base58 address that must be exactly 32 bytes long.
pub fn parse_address(base58: &str) -> (r: Result<PubkeyBytes, AddressError>)
    ensures
        match r {
            Ok(pk) => all_digits(base58.spec_bytes()) && is_decoding_of(base58.spec_bytes(), pk.bytes()),
            Err(AddressError::InvalidCharacter { byte }) => is_first_invalid(base58.spec_bytes(), byte),
            Err(AddressError::InvalidLength { len }) => all_digits(base58.spec_bytes())
                && len != 32 && exists|out: Seq<u8>| out.len() == len && is_decoding_of(base58.spec_bytes(), out),
        },
        r is Err && r->Err_0 is InvalidCharacter <==> !all_digits(base58.spec_bytes()),
{
    let bytes = match bs58_decode(base58) {
        Ok(bytes) => bytes,
        Err(e) => return Err(e),
    };
    if bytes.len() != 32 {
        return Err(AddressError::InvalidLength { len: bytes.len() });
    }
    let mut arr = [0u8; 32];
    let mut k: usize = 0;
    while k < 32
        invariant
            k <= 32,
            bytes@.len() == 32,
            arr@.len() == 32,
            forall|j: int| 0 <= j < k ==> arr@[j] == bytes@[j],
        decreases 32 - k,
    {
        arr[k] = bytes[k];
        k = k + 1;
    }
    proof {
        assert(arr@ =~= bytes@);
    }
    Ok(PubkeyBytes(arr))
}

/// Decodes the base58 address of a pool account; same rules as [`parse_address`].
pub fn parse_pool_address(base58: &str) -> (r: Result<PubkeyBytes, AddressError>)
    ensures
        match r {
            Ok(pk) => all_digits(base58.spec_bytes()) && is_decoding_of(base58.spec_bytes(), pk.bytes()),
            Err(AddressError::InvalidCharacter { byte }) => is_first_invalid(base58.spec_bytes(), byte),
            Err(AddressError::InvalidLength { len }) => all_digits(base58.spec_bytes())
                && len != 32 && exists|out: Seq<u8>| out.len() == len && is_decoding_of(base58.spec_bytes(), out),
        },
        r is Err && r->Err_0 is InvalidCharacter <==> !all_digits(base58.spec_bytes()),
{
    parse_address(base58)
}

} // verus!
