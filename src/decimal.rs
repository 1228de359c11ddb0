//! Decimal numbers written in ASCII.

use vstd::prelude::*;

verus! {

// ---------------------------------------------------------------------------
// Signed decimals
// ---------------------------------------------------------------------------

pub open spec fn is_digit(b: u8) -> bool {
    48 <= b <= 57
}

pub open spec fn all_digits(s: Seq<u8>) -> bool {
    forall|k: int| 0 <= k < s.len() ==> is_digit(#[trigger] s[k])
}

/// The value of a string of decimal digits.
pub open spec fn digits_value(s: Seq<u8>) -> int
    decreases s.len(),
{
    if s.len() == 0 {
        0
    } else {
        digits_value(s.drop_last()) * 10 + (s.last() - 48)
    }
}

/// Text of a signed 32-bit decimal: an optional `+` or `-`, then at least
/// one digit, with a value that fits.
pub open spec fn spec_parse_i32(s: Seq<u8>) -> Option<i32> {
    let signed = s.len() > 0 && (s[0] == 43 || s[0] == 45);
    let digits = if signed { s.drop_first() } else { s };
    let v = if signed && s[0] == 45 { -digits_value(digits) } else { digits_value(digits) };
    if digits.len() > 0 && all_digits(digits) && i32::MIN <= v <= i32::MAX {
        Some(v as i32)
    } else {
        None
    }
}

pub proof fn lemma_digits_value_nonneg(s: Seq<u8>)
    requires
        all_digits(s),
    ensures
        digits_value(s) >= 0,
    decreases s.len(),
{
    if s.len() > 0 {
        assert(all_digits(s.drop_last()));
        lemma_digits_value_nonneg(s.drop_last());
    }
}

pub proof fn lemma_digits_value_grows(s: Seq<u8>, k: int)
    requires
        all_digits(s),
        0 <= k <= s.len(),
    ensures
        digits_value(s.take(k)) <= digits_value(s),
    decreases s.len(),
{
    if k < s.len() {
        assert(all_digits(s.drop_last()));
        assert(s.drop_last().take(k) =~= s.take(k));
        lemma_digits_value_grows(s.drop_last(), k);
        lemma_digits_value_nonneg(s.drop_last());
    } else {
        assert(s.take(k) =~= s);
    }
}

/// Parses a signed 32-bit decimal exactly as `spec_parse_i32` describes.
pub fn parse_i32(s: &[u8]) -> (r: Option<i32>)
    ensures
        r == spec_parse_i32(s@),
{
    let n = s.len();
    let signed = n > 0 && (s[0] == 43 || s[0] == 45);
    let negative = signed && s[0] == 45;
    let start: usize = if signed { 1 } else { 0 };
    let ghost digits = if signed { s@.drop_first() } else { s@ };
    if start >= n {
        return None;
    }
    let limit: i64 = 0x8000_0000;
    let mut acc: i64 = 0;
    let mut i: usize = start;
    while i < n
        invariant
            start <= i <= n,
            n == s@.len(),
            digits =~= s@.subrange(start as int, n as int),
            all_digits(s@.subrange(start as int, i as int)),
            acc == digits_value(s@.subrange(start as int, i as int)),
            0 <= acc <= limit,
            limit == 0x8000_0000,
            signed == (n > 0 && (s@[0] == 43 || s@[0] == 45)),
            negative == (signed && s@[0] == 45),
            start == (if signed { 1usize } else { 0usize }),
            digits == (if signed { s@.drop_first() } else { s@ }),
        decreases n - i,
    {
        let b = s[i];
        if b < 48 || b > 57 {
            proof {
                assert(!is_digit(digits[i - start]));
                assert(!all_digits(digits));
            }
            return None;
        }
        proof {
            let p = s@.subrange(start as int, i as int + 1);
            assert(p.drop_last() =~= s@.subrange(start as int, i as int));
            assert(all_digits(p));
        }
        acc = acc * 10 + (b - 48) as i64;
        if acc > limit {
            proof {
                let k = i - start + 1;
                assert(digits.take(k) =~= s@.subrange(start as int, i as int + 1));
                if all_digits(digits) {
                    lemma_digits_value_grows(digits, k);
                }
            }
            return None;
        }
        i += 1;
    }
    proof {
        assert(digits =~= s@.subrange(start as int, i as int));
    }
    if negative {
        Some((-acc) as i32)
    } else if acc <= 0x7fff_ffff {
        Some(acc as i32)
    } else {
        None
    }
}

// ---------------------------------------------------------------------------
// Unsigned decimals
// ---------------------------------------------------------------------------

/// The value of a run of digits, when it fits in 32 bits.
pub open spec fn spec_parse_u32(s: Seq<u8>) -> Option<u32> {
    if digits_value(s) <= u32::MAX {
        Some(digits_value(s) as u32)
    } else {
        None
    }
}

/// Reads the digits `d[lo..hi]` as an unsigned 32-bit number, or `None`
/// when the value does not fit.
pub fn parse_u32_digits(d: &[u8], lo: usize, hi: usize) -> (r: Option<u32>)
    requires
        lo <= hi <= d@.len(),
        all_digits(d@.subrange(lo as int, hi as int)),
    ensures
        r == spec_parse_u32(d@.subrange(lo as int, hi as int)),
{
    let ghost digits = d@.subrange(lo as int, hi as int);
    let mut acc: u64 = 0;
    let mut i: usize = lo;
    while i < hi
        invariant
            lo <= i <= hi <= d@.len(),
            digits == d@.subrange(lo as int, hi as int),
            all_digits(digits),
            acc == digits_value(d@.subrange(lo as int, i as int)),
            acc <= u32::MAX,
        decreases hi - i,
    {
        proof {
            assert(d@.subrange(lo as int, i as int + 1).drop_last() =~= d@.subrange(lo as int, i as int));
            assert(is_digit(digits[i - lo]));
        }
        acc = acc * 10 + (d[i] - 48) as u64;
        if acc > 0xffff_ffff {
            proof {
                let k = i - lo + 1;
                assert(digits.take(k) =~= d@.subrange(lo as int, i as int + 1));
                lemma_digits_value_grows(digits, k);
            }
            return None;
        }
        i += 1;
    }
    Some(acc as u32)
}

} // verus!
