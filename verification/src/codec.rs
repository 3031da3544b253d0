//! Field codec: fixed-width ASCII decimal sub-fields of a byte slice.

use vstd::prelude::*;

verus! {

/// Why a marked payload failed to decode.
///
/// `Text` means a field window holds bytes that are not ASCII text;
/// `Number` means the window is ASCII but not a non-negative decimal
/// literal that fits the target width; `Date` means the derived accept
/// time is not a valid time of day, or the instant is not representable;
/// `Truncated` means the payload is too short for the fixed field table.
#[derive(Clone, Copy, Debug, PartialEq, Eq, Structural)]
pub enum DecodeError {
    Text { offset: usize, len: usize },
    Number { offset: usize, len: usize },
    Date,
    Truncated,
}

pub open spec fn all_ascii(s: Seq<u8>) -> bool {
    forall|i: int| 0 <= i < s.len() ==> (#[trigger] s[i]) < 128
}

pub open spec fn is_digit(b: u8) -> bool {
    48 <= b <= 57
}

pub open spec fn digit_val(b: u8) -> nat {
    (b - 48) as nat
}

pub open spec fn all_digits(s: Seq<u8>) -> bool {
    forall|i: int| 0 <= i < s.len() ==> is_digit(#[trigger] s[i])
}

/// Value of a string of decimal digits, most significant first.
pub open spec fn dec_val(s: Seq<u8>) -> nat
    decreases s.len(),
{
    if s.len() == 0 {
        0
    } else {
        dec_val(s.drop_last()) * 10 + digit_val(s.last())
    }
}

/// The digits of a decimal literal: an optional leading `+` is skipped.
pub open spec fn digits_part(s: Seq<u8>) -> Seq<u8> {
    if s.len() > 0 && s[0] == 43 {
        s.subrange(1, s.len() as int)
    } else {
        s
    }
}

/// A non-negative decimal literal: optional leading `+`, then one or
/// more decimal digits.
pub open spec fn is_dec_literal(s: Seq<u8>) -> bool {
    digits_part(s).len() > 0 && all_digits(digits_part(s))
}

/// What parsing the `(start, len)` window of `p` as a `u32` yields.
pub open spec fn spec_parse_u32(p: Seq<u8>, start: int, len: int) -> Result<u32, DecodeError> {
    let w = p.subrange(start, start + len);
    if !all_ascii(w) {
        Err(DecodeError::Text { offset: start as usize, len: len as usize })
    } else if !(is_dec_literal(w) && dec_val(digits_part(w)) <= u32::MAX) {
        Err(DecodeError::Number { offset: start as usize, len: len as usize })
    } else {
        Ok(dec_val(digits_part(w)) as u32)
    }
}

proof fn lemma_dec_val_take_succ(s: Seq<u8>, i: int)
    requires
        0 <= i < s.len(),
    ensures
        dec_val(s.take(i + 1)) == dec_val(s.take(i)) * 10 + digit_val(s[i]),
{
    assert(s.take(i + 1).drop_last() =~= s.take(i));
    assert(s.take(i + 1).last() == s[i]);
}

proof fn lemma_dec_val_take_le(s: Seq<u8>, i: int)
    requires
        0 <= i <= s.len(),
    ensures
        dec_val(s.take(i)) <= dec_val(s),
    decreases s.len() - i,
{
    if i < s.len() {
        lemma_dec_val_take_succ(s, i);
        lemma_dec_val_take_le(s, i + 1);
    } else {
        assert(s.take(i) =~= s);
    }
}

/// Parses the `(start, len)` window of `p` as a non-negative base-10
/// integer: an optional leading `+`, then decimal digits, no other bytes,
/// no wraparound (a value over `u32::MAX` is a `Number` error).
pub fn parse_u32_field(p: &[u8], start: usize, len: usize) -> (r: Result<u32, DecodeError>)
    requires
        start + len <= p@.len(),
    ensures
        r == spec_parse_u32(p@, start as int, len as int),
{
    let ghost w = p@.subrange(start as int, start as int + len as int);
    let plen: usize = p.len();
    let mut i: usize = 0;
    while i < len
        invariant
            start + len <= plen,
            plen == p@.len(),
            i <= len,
            w == p@.subrange(start as int, start as int + len as int),
            forall|j: int| 0 <= j < i ==> (#[trigger] w[j]) < 128,
        decreases len - i,
    {
        if p[start + i] >= 128 {
            assert(w[i as int] == p@[start as int + i as int]);
            return Err(DecodeError::Text { offset: start, len });
        }
        i += 1;
    }
    assert(all_ascii(w));

    let ds: usize = if len > 0 && p[start] == 43 {
        1
    } else {
        0
    };
    let ghost digits = w.subrange(ds as int, len as int);
    proof {
        assert(digits_part(w) =~= digits);
    }
    if ds >= len {
        // empty window, or a lone `+`: no digits at all
        assert(!is_dec_literal(w));
        return Err(DecodeError::Number { offset: start, len });
    }

    let mut acc: u64 = 0;
    let mut j: usize = ds;
    while j < len
        invariant
            start + len <= plen,
            plen == p@.len(),
            ds <= j <= len,
            ds < len,
            w == p@.subrange(start as int, start as int + len as int),
            digits == w.subrange(ds as int, len as int),
            all_ascii(w),
            digits_part(w) == digits,
            acc <= u32::MAX,
            acc == dec_val(digits.take(j - ds)),
            forall|k: int| 0 <= k < j - ds ==> is_digit(#[trigger] digits[k]),
        decreases len - j,
    {
        let b = p[start + j];
        proof {
            assert(digits[j - ds] == w[j as int]);
            assert(w[j as int] == p@[start as int + j as int]);
        }
        if b < 48 || b > 57 {
            assert(!all_digits(digits));
            return Err(DecodeError::Number { offset: start, len });
        }
        let acc2: u64 = acc * 10 + ((b - 48) as u64);
        proof {
            lemma_dec_val_take_succ(digits, j - ds);
        }
        if acc2 > 0xFFFF_FFFF {
            proof {
                lemma_dec_val_take_le(digits, j - ds + 1);
            }
            assert(dec_val(digits) > u32::MAX);
            return Err(DecodeError::Number { offset: start, len });
        }
        acc = acc2;
        j += 1;
    }
    proof {
        assert(digits.take(len - ds) =~= digits);
        assert(is_dec_literal(w));
    }
    Ok(acc as u32)
}

} // verus!
