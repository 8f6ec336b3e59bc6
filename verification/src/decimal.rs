//! Decimal text: splitting on a separator byte, and the integer parsing of
//! `u128::from_str` and `i32::from_str`.

use vstd::prelude::*;

verus! {

/// Index of the first byte of `s` satisfying `is_sep`, or `s.len()` when none does.
pub open spec fn first_index(s: Seq<u8>, c1: u8, c2: u8) -> int
    decreases s.len(),
{
    if s.len() == 0 {
        0
    } else if s[0] == c1 || s[0] == c2 {
        0
    } else {
        1 + first_index(s.drop_first(), c1, c2)
    }
}

/// The text before the first `c1` or `c2` (all of `s` when there is none).
pub open spec fn head_part(s: Seq<u8>, c1: u8, c2: u8) -> Seq<u8> {
    s.subrange(0, first_index(s, c1, c2))
}

/// The text after the first `c1` or `c2`, if there is one.
pub open spec fn tail_part(s: Seq<u8>, c1: u8, c2: u8) -> Option<Seq<u8>> {
    let i = first_index(s, c1, c2);
    if i < s.len() { Some(s.subrange(i + 1, s.len() as int)) } else { None }
}

/// The second field of `s` split on `c1`/`c2`: the text between the first
/// separator and the next one (or the end), if there is a separator.
pub open spec fn second_part(s: Seq<u8>, c1: u8, c2: u8) -> Option<Seq<u8>> {
    match tail_part(s, c1, c2) {
        Some(t) => Some(head_part(t, c1, c2)),
        None => None,
    }
}

pub proof fn lemma_first_index(s: Seq<u8>, c1: u8, c2: u8, i: int)
    requires
        0 <= i <= s.len(),
        forall|j: int| 0 <= j < i ==> s[j] != c1 && s[j] != c2,
        i < s.len() ==> s[i] == c1 || s[i] == c2,
    ensures
        first_index(s, c1, c2) == i,
    decreases i,
{
    if i > 0 {
        lemma_first_index(s.drop_first(), c1, c2, i - 1);
    }
}

pub proof fn lemma_first_index_bounds(s: Seq<u8>, c1: u8, c2: u8)
    ensures
        0 <= first_index(s, c1, c2) <= s.len(),
    decreases s.len(),
{
    if s.len() > 0 {
        lemma_first_index_bounds(s.drop_first(), c1, c2);
    }
}

/// Index of the first `c1` or `c2` in `s`, or `s.len()`.
pub fn find_separator(s: &[u8], c1: u8, c2: u8) -> (r: usize)
    ensures
        r == first_index(s@, c1, c2),
{
    let mut i: usize = 0;
    while i < s.len() && s[i] != c1 && s[i] != c2
        invariant
            i <= s@.len(),
            forall|j: int| 0 <= j < i ==> s@[j] != c1 && s@[j] != c2,
        decreases s@.len() - i,
    {
        i = i + 1;
    }
    proof {
        lemma_first_index(s@, c1, c2, i as int);
    }
    i
}

/// A copy of `s[from..to]`.
pub fn copy_range(s: &[u8], from: usize, to: usize) -> (r: Vec<u8>)
    requires
        from <= to <= s@.len(),
    ensures
        r@ == s@.subrange(from as int, to as int),
{
    let mut out: Vec<u8> = Vec::new();
    let mut i: usize = from;
    while i < to
        invariant
            from <= i <= to <= s@.len(),
            out@ == s@.subrange(from as int, i as int),
        decreases to - i,
    {
        out.push(s[i]);
        proof {
            assert(s@.subrange(from as int, i + 1) =~= s@.subrange(from as int, i as int).push(s@[i as int]));
        }
        i = i + 1;
    }
    out
}

/// Whether every byte of `d` is an ASCII decimal digit.
pub open spec fn all_decimal(d: Seq<u8>) -> bool {
    forall|i: int| 0 <= i < d.len() ==> 48 <= #[trigger] d[i] <= 57
}

/// The value of the decimal digits `d`.
pub open spec fn decimal_value(d: Seq<u8>) -> nat
    decreases d.len(),
{
    if d.len() == 0 {
        0
    } else {
        decimal_value(d.drop_last()) * 10 + (d.last() - 48) as nat
    }
}

/// What `u128::from_str` gives for the text `t`: an optional `+`, then at
/// least one digit, of value at most `u128::MAX`.
pub open spec fn parse_u128_spec(t: Seq<u8>) -> Option<u128> {
    let digits = if t.len() > 0 && t[0] == 43u8 { t.drop_first() } else { t };
    if digits.len() == 0 || !all_decimal(digits) || decimal_value(digits) > u128::MAX {
        None
    } else {
        Some(decimal_value(digits) as u128)
    }
}

/// What `i32::from_str` gives for the text `t`: an optional sign, then at
/// least one digit, of a value that fits in `i32`.
pub open spec fn parse_i32_spec(t: Seq<u8>) -> Option<i32> {
    let negative = t.len() > 0 && t[0] == 45u8;
    let digits = if t.len() > 0 && (t[0] == 43u8 || t[0] == 45u8) { t.drop_first() } else { t };
    let v: int = if negative { -(decimal_value(digits) as int) } else { decimal_value(digits) as int };
    if digits.len() == 0 || !all_decimal(digits) || v < i32::MIN || v > i32::MAX {
        None
    } else {
        Some(v as i32)
    }
}

proof fn lemma_decimal_grows(d: Seq<u8>, i: int)
    requires
        0 <= i <= d.len(),
        all_decimal(d),
    ensures
        decimal_value(d.subrange(0, i)) <= decimal_value(d),
    decreases d.len() - i,
{
    if i < d.len() {
        lemma_decimal_grows(d, i + 1);
        assert(d.subrange(0, i + 1).drop_last() =~= d.subrange(0, i));
    } else {
        assert(d.subrange(0, i) =~= d);
    }
}

/// The value of the decimal digits `d`, or `None` when it exceeds `u128::MAX`.
fn digits_value(d: &[u8]) -> (r: Option<u128>)
    requires
        all_decimal(d@),
    ensures
        match r {
            Some(v) => v == decimal_value(d@),
            None => decimal_value(d@) > u128::MAX,
        },
{
    let mut acc: u128 = 0;
    let mut i: usize = 0;
    while i < d.len()
        invariant
            i <= d@.len(),
            all_decimal(d@),
            acc == decimal_value(d@.subrange(0, i as int)),
        decreases d@.len() - i,
    {
        let digit = (d[i] - 48) as u128;
        proof {
            assert(d@.subrange(0, i + 1).drop_last() =~= d@.subrange(0, i as int));
            assert(48 <= d@[i as int] <= 57);
        }
        let next = match acc.checked_mul(10) {
            Some(m) => m.checked_add(digit),
            None => None,
        };
        match next {
            Some(n) => {
                acc = n;
            },
            None => {
                proof {
                    lemma_decimal_grows(d@, i + 1);
                }
                return None;
            },
        }
        i = i + 1;
    }
    proof {
        assert(d@.subrange(0, d@.len() as int) =~= d@);
    }
    Some(acc)
}

/// Whether every byte of `d` is a digit.
fn check_decimal(d: &[u8]) -> (r: bool)
    ensures
        r == all_decimal(d@),
{
    let mut i: usize = 0;
    while i < d.len()
        invariant
            i <= d@.len(),
            forall|j: int| 0 <= j < i ==> 48 <= #[trigger] d@[j] <= 57,
        decreases d@.len() - i,
    {
        if d[i] < 48 || d[i] > 57 {
            return false;
        }
        i = i + 1;
    }
    true
}

/// Parses `t` as `u128::from_str` does.
pub fn parse_u128(t: &[u8]) -> (r: Option<u128>)
    ensures
        r == parse_u128_spec(t@),
{
    let start: usize = if t.len() > 0 && t[0] == 43u8 { 1 } else { 0 };
    let digits = copy_range(t, start, t.len());
    proof {
        if start == 1 {
            assert(digits@ =~= t@.drop_first());
        } else {
            assert(digits@ =~= t@);
        }
    }
    if digits.len() == 0 || !check_decimal(digits.as_slice()) {
        return None;
    }
    digits_value(digits.as_slice())
}

/// Parses `t` as `i32::from_str` does.
pub fn parse_i32(t: &[u8]) -> (r: Option<i32>)
    ensures
        r == parse_i32_spec(t@),
{
    let negative = t.len() > 0 && t[0] == 45u8;
    let start: usize = if t.len() > 0 && (t[0] == 43u8 || t[0] == 45u8) { 1 } else { 0 };
    let digits = copy_range(t, start, t.len());
    proof {
        if start == 1 {
            assert(digits@ =~= t@.drop_first());
        } else {
            assert(digits@ =~= t@);
        }
    }
    if digits.len() == 0 || !check_decimal(digits.as_slice()) {
        return None;
    }
    let v = match digits_value(digits.as_slice()) {
        Some(v) => v,
        None => return None,
    };
    if negative {
        if v > 0x8000_0000 {
            return None;
        }
        if v == 0x8000_0000 {
            return Some(i32::MIN);
        }
        Some(-(v as i32))
    } else {
        if v > 0x7fff_ffff {
            return None;
        }
        Some(v as i32)
    }
}

} // verus!
