//! Parsing of an explicit max-speed tag value: a plain decimal number that
//! fits in eight bits. Anything else is quietly rejected, never an error.

use vstd::prelude::*;
use vstd::string::StrSliceExecFns;

verus! {

/// Whether `c` is a decimal digit.
pub open spec fn is_digit(c: char) -> bool {
    48 <= c as int && c as int <= 57
}

/// The numeric value of one decimal digit.
pub open spec fn digit_val(c: char) -> int {
    c as int - 48
}

/// Whether every character of `s` is a decimal digit.
pub open spec fn all_digits(s: Seq<char>) -> bool {
    forall|i: int| 0 <= i < s.len() ==> is_digit(s[i])
}

/// The number that a digit string denotes, most significant digit first.
pub open spec fn digits_val(s: Seq<char>) -> int
    decreases s.len(),
{
    if s.len() == 0 {
        0
    } else {
        digits_val(s.drop_last()) * 10 + digit_val(s.last())
    }
}

/// A digit string denotes a nonnegative number.
pub proof fn lemma_digits_val_nonneg(s: Seq<char>)
    requires
        all_digits(s),
    ensures
        digits_val(s) >= 0,
    decreases s.len(),
{
    if s.len() > 0 {
        assert(all_digits(s.drop_last()));
        lemma_digits_val_nonneg(s.drop_last());
    }
}

/// The reading of a raw max-speed tag value: its number if the whole string
/// is a nonempty run of decimal digits denoting at most 255, nothing if it
/// is empty, non-numeric, or overflows.
pub open spec fn parse_speed_spec(s: Seq<char>) -> Option<u8> {
    if s.len() > 0 && all_digits(s) && digits_val(s) <= 255 {
        Some(digits_val(s) as u8)
    } else {
        None
    }
}

/// Parses an explicit max-speed tag value. A non-numeric or overflowing
/// value yields nothing; parsing never fails an ingestion.
pub fn parse_max_speed(s: &str) -> (r: Option<u8>)
    ensures
        r == parse_speed_spec(s@),
{
    let n = s.unicode_len();
    if n == 0 {
        return None;
    }
    let mut acc: u16 = 0;
    let mut over: bool = false;
    let mut i: usize = 0;
    while i < n
        invariant
            0 < n == s@.len(),
            0 <= i <= n,
            all_digits(s@.take(i as int)),
            !over ==> acc == digits_val(s@.take(i as int)) && acc <= 255,
            over ==> digits_val(s@.take(i as int)) > 255,
        decreases n - i,
    {
        let c = s.get_char(i);
        let u = c as u32;
        if u < 48 || u > 57 {
            assert(!is_digit(s@[i as int]));
            return None;
        }
        assert(s@.take(i as int + 1).drop_last() =~= s@.take(i as int));
        assert(s@.take(i as int + 1).last() == s@[i as int]);
        proof {
            lemma_digits_val_nonneg(s@.take(i as int));
        }
        if over {
            assert(digits_val(s@.take(i as int + 1)) > 255);
        } else {
            let v: u32 = (acc as u32) * 10 + (u - 48);
            if v > 255 {
                over = true;
            } else {
                acc = v as u16;
            }
        }
        i = i + 1;
    }
    assert(s@.take(n as int) =~= s@);
    if over {
        None
    } else {
        Some(acc as u8)
    }
}

} // verus!
