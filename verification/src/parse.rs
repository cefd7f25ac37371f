//! Parsing one trimmed input line as an unsigned byte count, the way the
//! input loop reads it: an optional leading plus sign, then decimal digits.
//! Anything else — an empty line, a stray character, a value over 255 —
//! silently falls back to zero.

use vstd::prelude::*;

verus! {

/// The byte is an ASCII decimal digit.
pub open spec fn is_ascii_digit(b: u8) -> bool {
    48 <= b <= 57
}

/// Numeric value of a run of ASCII digits, most significant first.
pub open spec fn digits_value(s: Seq<u8>) -> int
    decreases s.len(),
{
    if s.len() == 0 {
        0
    } else {
        digits_value(s.drop_last()) * 10 + (s.last() - 48)
    }
}

/// Every byte is an ASCII decimal digit.
pub open spec fn all_digits(s: Seq<u8>) -> bool {
    forall|i: int| 0 <= i < s.len() ==> is_ascii_digit(#[trigger] s[i])
}

/// The digits of `s`: everything after an optional leading plus sign
/// (byte 43).
pub open spec fn digit_part(s: Seq<u8>) -> Seq<u8> {
    if s.len() > 0 && s[0] == 43 {
        s.subrange(1, s.len() as int)
    } else {
        s
    }
}

/// `s` writes an unsigned byte: an optional plus sign, then at least one
/// digit, nothing but digits, and a value at most 255.
pub open spec fn is_u8_numeral(s: Seq<u8>) -> bool {
    let d = digit_part(s);
    d.len() > 0 && all_digits(d) && digits_value(d) <= 255
}

/// A run of digits has a non-negative value.
pub proof fn lemma_digits_value_nonneg(s: Seq<u8>)
    requires
        all_digits(s),
    ensures
        digits_value(s) >= 0,
    decreases s.len(),
{
    if s.len() > 0 {
        assert(all_digits(s.drop_last())) by {
            assert(forall|i: int|
                0 <= i < s.drop_last().len() ==> #[trigger] s.drop_last()[i] == s[i]);
        }
        lemma_digits_value_nonneg(s.drop_last());
    }
}

/// Parse a trimmed line as an unsigned byte; any failure yields zero.
pub fn parse_u8_or_zero(s: &[u8]) -> (ret: u8)
    ensures
        is_u8_numeral(s@) ==> ret == digits_value(digit_part(s@)),
        !is_u8_numeral(s@) ==> ret == 0,
{
    let n: usize = s.len();
    let offset: usize = if n > 0 && s[0] == 43 {
        1
    } else {
        0
    };
    proof {
        assert(digit_part(s@) =~= s@.subrange(offset as int, s@.len() as int));
    }
    if n == offset {
        return 0;
    }
    let mut i: usize = offset;
    let mut acc: u32 = 0;
    while i < n
        invariant
            offset <= i <= n,
            n == s@.len(),
            digit_part(s@) == s@.subrange(offset as int, s@.len() as int),
            all_digits(s@.subrange(offset as int, i as int)),
            acc <= 256,
            digits_value(s@.subrange(offset as int, i as int)) <= 255 ==> acc == digits_value(
                s@.subrange(offset as int, i as int),
            ),
            digits_value(s@.subrange(offset as int, i as int)) > 255 ==> acc == 256,
        decreases n - i,
    {
        let b: u8 = s[i];
        if b < 48 || b > 57 {
            proof {
                let d = digit_part(s@);
                assert(d[i - offset] == s@[i as int]);
                assert(!all_digits(d));
            }
            return 0;
        }
        proof {
            let prefix = s@.subrange(offset as int, i as int);
            let grown = s@.subrange(offset as int, i + 1);
            assert(grown.drop_last() =~= prefix);
            assert(grown.last() == s@[i as int]);
            assert(all_digits(grown)) by {
                assert(forall|k: int| 0 <= k < grown.len() ==> #[trigger] grown[k] == s@[
                offset + k]);
            }
            lemma_digits_value_nonneg(prefix);
        }
        let digit: u32 = (b - 48) as u32;
        let next: u32 = acc * 10 + digit;
        acc = if next > 255 {
            256
        } else {
            next
        };
        i = i + 1;
    }
    proof {
        let d = digit_part(s@);
        assert(d == s@.subrange(offset as int, i as int));
        lemma_digits_value_nonneg(d);
    }
    if acc > 255 {
        0
    } else {
        acc as u8
    }
}

} // verus!
