//! Fixed-point money amounts.
//!
//! An amount is a non-negative whole number of minor currency units; one
//! major unit is `MINOR_UNITS_PER_UNIT` minor units.  All allocation
//! arithmetic is exact integer arithmetic on minor units: no floating point
//! is involved anywhere, and division happens only inside the exact-sum
//! distribution with its documented rounding.  Decimal strings such as
//! requested funding amounts are parsed here, rejecting malformed text
//! instead of zeroing it.

use vstd::prelude::*;
use crate::RewardsError;

verus! {

/// A money amount in minor currency units.
pub type Amount = u64;

/// Minor units per major currency unit: six decimal places.
pub const MINOR_UNITS_PER_UNIT: u64 = 1_000_000;

/// Decimal places of the minor unit.
pub const FRACTION_DIGITS: u64 = 6;

pub open spec fn is_digit(c: char) -> bool {
    48 <= c as u32 <= 57
}

pub open spec fn digit_val(c: char) -> int {
    c as u32 - 48
}

pub open spec fn all_digits(s: Seq<char>) -> bool {
    forall|i: int| 0 <= i < s.len() ==> is_digit(#[trigger] s[i])
}

/// The number a digit string denotes.
pub open spec fn digits_value(s: Seq<char>) -> int
    decreases s.len(),
{
    if s.len() == 0 {
        0
    } else {
        digits_value(s.drop_last()) * 10 + digit_val(s.last())
    }
}

/// Ten to the `k`.
pub open spec fn pow10(k: int) -> int
    decreases k,
{
    if k <= 0 {
        1
    } else {
        10 * pow10(k - 1)
    }
}

/// The position of the first `.`, or the length when there is none.
pub open spec fn dot_index(s: Seq<char>) -> int
    decreases s.len(),
{
    if s.len() == 0 {
        0
    } else if s[0] == '.' {
        0
    } else {
        1 + dot_index(s.drop_first())
    }
}

/// A well-formed decimal amount string: a non-empty run of digits,
/// optionally followed by `.` and one to `FRACTION_DIGITS` digits.
pub open spec fn well_formed_decimal(s: Seq<char>) -> bool {
    let d = dot_index(s);
    if d == s.len() {
        s.len() > 0 && all_digits(s)
    } else {
        &&& 0 < d
        &&& all_digits(s.take(d))
        &&& d + 1 < s.len()
        &&& s.len() - (d + 1) <= FRACTION_DIGITS
        &&& all_digits(s.skip(d + 1))
    }
}

/// The amount in minor units a well-formed decimal string denotes.
pub open spec fn decimal_value(s: Seq<char>) -> int {
    let d = dot_index(s);
    if d == s.len() {
        digits_value(s) * MINOR_UNITS_PER_UNIT
    } else {
        digits_value(s.take(d)) * MINOR_UNITS_PER_UNIT + digits_value(s.skip(d + 1)) * pow10(
            FRACTION_DIGITS - (s.len() - (d + 1)),
        )
    }
}

proof fn lemma_digits_value_nonneg(s: Seq<char>)
    requires
        all_digits(s),
    ensures
        digits_value(s) >= 0,
    decreases s.len(),
{
    if s.len() > 0 {
        lemma_digits_value_nonneg(s.drop_last());
    }
}

/// A digit string's value is below ten to its length.
proof fn lemma_digits_value_upper(s: Seq<char>)
    requires
        all_digits(s),
    ensures
        digits_value(s) < pow10(s.len() as int),
    decreases s.len(),
{
    if s.len() == 0 {
    } else {
        lemma_digits_value_upper(s.drop_last());
        assert(digits_value(s.drop_last()) <= pow10(s.len() - 1) - 1);
        assert(digits_value(s.drop_last()) * 10 <= (pow10(s.len() - 1) - 1) * 10)
            by (nonlinear_arith)
            requires
                digits_value(s.drop_last()) <= pow10(s.len() - 1) - 1,
        ;
    }
}

/// A digit prefix never denotes more than the whole string.
proof fn lemma_digits_prefix_le(s: Seq<char>, i: int)
    requires
        all_digits(s),
        0 <= i <= s.len(),
    ensures
        digits_value(s.take(i)) <= digits_value(s),
    decreases s.len() - i,
{
    if i == s.len() {
        assert(s.take(i) =~= s);
    } else {
        lemma_digits_prefix_le(s, i + 1);
        assert(s.take(i + 1).drop_last() =~= s.take(i));
        assert(all_digits(s.take(i))) by {
            assert(forall|j: int| 0 <= j < i ==> s.take(i)[j] == s[j]);
        }
        lemma_digits_value_nonneg(s.take(i));
        assert(digits_value(s.take(i)) <= digits_value(s.take(i)) * 10 + digit_val(s[i]))
            by (nonlinear_arith)
            requires
                digits_value(s.take(i)) >= 0,
                digit_val(s[i]) >= 0,
        ;
    }
}

/// Accumulate the value of the digit run `s[from..to]`, rejecting values
/// that do not fit a `u64`.
fn digits_to_u64(s: &str, from: usize, to: usize) -> (r: Result<u64, RewardsError>)
    requires
        from <= to <= s@.len(),
        all_digits(s@.subrange(from as int, to as int)),
    ensures
        r is Ok <==> digits_value(s@.subrange(from as int, to as int)) <= u64::MAX,
        r is Ok ==> r->Ok_0 == digits_value(s@.subrange(from as int, to as int)),
        r is Err ==> r->Err_0 == RewardsError::InvalidInput,
{
    let ghost digits = s@.subrange(from as int, to as int);
    let mut acc: u64 = 0;
    let mut i: usize = from;
    while i < to
        invariant
            from <= i <= to <= s@.len(),
            digits == s@.subrange(from as int, to as int),
            all_digits(digits),
            acc == digits_value(digits.take(i - from)),
        decreases to - i,
    {
        let c = s.get_char(i);
        proof {
            assert(digits[i - from] == s@[i as int]);
            assert(is_digit(s@[i as int]));
            assert(digits.take(i - from + 1).drop_last() =~= digits.take(i - from));
            lemma_digits_value_nonneg(digits.take(i - from + 1));
        }
        let d = (c as u32) - 48;
        if acc > (u64::MAX - (d as u64)) / 10 {
            proof {
                // This prefix already exceeds the range, so the whole run
                // does too.
                assert(all_digits(digits.take(i - from + 1))) by {
                    assert(forall|j: int|
                        0 <= j < i - from + 1 ==> digits.take(i - from + 1)[j] == digits[j]);
                }
                lemma_digits_prefix_le(digits, i - from + 1);
                assert(digits_value(digits.take(i - from + 1)) > u64::MAX) by (nonlinear_arith)
                    requires
                        digits_value(digits.take(i - from + 1)) == digits_value(
                            digits.take(i - from),
                        ) * 10 + digit_val(digits[i - from]),
                        digits_value(digits.take(i - from)) > (u64::MAX - digit_val(
                            digits[i - from],
                        )) / 10,
                        digits_value(digits.take(i - from)) >= 0,
                        0 <= digit_val(digits[i - from]) <= 9,
                ;
            }
            return Err(RewardsError::InvalidInput);
        }
        acc = acc * 10 + (d as u64);
        i = i + 1;
    }
    proof {
        assert(digits.take(to - from) =~= digits);
    }
    Ok(acc)
}

/// Parse a decimal amount string into minor units.
///
/// Returns `InvalidInput` exactly when the string is not a well-formed
/// decimal number, or denotes an amount too large for the minor-unit range;
/// otherwise the parsed amount is exactly the denoted value.
pub fn parse_amount(s: &str) -> (r: Result<Amount, RewardsError>)
    ensures
        r is Ok <==> (well_formed_decimal(s@) && decimal_value(s@) <= u64::MAX),
        r is Ok ==> r->Ok_0 == decimal_value(s@),
        r is Err ==> r->Err_0 == RewardsError::InvalidInput,
{
    let n = s.unicode_len();
    // Find the dot and check every other character is a digit.
    let mut dot: usize = n;
    let mut i: usize = 0;
    while i < n
        invariant
            0 <= i <= n,
            n == s@.len(),
            dot == n || (dot < i && s@[dot as int] == '.'),
            forall|j: int| 0 <= j < i && j != dot ==> is_digit(#[trigger] s@[j]),
            dot == n ==> forall|j: int| 0 <= j < i ==> s@[j] != '.',
            dot < n ==> forall|j: int| 0 <= j < dot ==> s@[j] != '.',
        decreases n - i,
    {
        let c = s.get_char(i);
        if c == '.' {
            if dot < n {
                // a second dot: not a number
                proof {
                    if well_formed_decimal(s@) {
                        lemma_wf_char_shape(s@, dot as int);
                        lemma_wf_char_shape(s@, i as int);
                    }
                }
                return Err(RewardsError::InvalidInput);
            }
            dot = i;
        } else {
            let cv = c as u32;
            if cv < 48 || cv > 57 {
                proof {
                    if well_formed_decimal(s@) {
                        lemma_wf_char_shape(s@, i as int);
                    }
                }
                return Err(RewardsError::InvalidInput);
            }
        }
        i = i + 1;
    }
    proof {
        if dot == n {
            lemma_dot_index_none(s@);
        } else {
            lemma_dot_index_is_first(s@, dot as int);
        }
    }

    if dot == n {
        // no fraction: digits * one major unit
        if n == 0 {
            return Err(RewardsError::InvalidInput);
        }
        proof {
            assert(s@.subrange(0, n as int) =~= s@);
        }
        let whole = match digits_to_u64(s, 0, n) {
            Ok(v) => v,
            Err(e) => {
                proof {
                    lemma_scaling_exceeds(digits_value(s@));
                }
                return Err(e);
            },
        };
        let whole128 = (whole as u128) * (MINOR_UNITS_PER_UNIT as u128);
        if whole128 > u64::MAX as u128 {
            return Err(RewardsError::InvalidInput);
        }
        return Ok(whole128 as u64);
    }

    // intpart '.' fracpart
    if dot == 0 || dot + 1 == n || n - (dot + 1) > 6 {
        return Err(RewardsError::InvalidInput);
    }
    proof {
        assert(s@.take(dot as int) =~= s@.subrange(0, dot as int));
        assert(s@.skip(dot as int + 1) =~= s@.subrange(dot as int + 1, n as int));
        assert(all_digits(s@.take(dot as int)));
        assert(all_digits(s@.skip(dot as int + 1)));
    }
    let whole = match digits_to_u64(s, 0, dot) {
        Ok(v) => v,
        Err(e) => {
            proof {
                lemma_digits_value_nonneg(s@.skip(dot as int + 1));
                lemma_pow10_pos(FRACTION_DIGITS - (s@.len() - (dot as int + 1)));
                lemma_scaling_exceeds_frac(
                    digits_value(s@.take(dot as int)),
                    digits_value(s@.skip(dot as int + 1)),
                    pow10(FRACTION_DIGITS - (s@.len() - (dot as int + 1))),
                );
            }
            return Err(e);
        },
    };
    let frac = match digits_to_u64(s, dot + 1, n) {
        Ok(v) => v,
        Err(_) => {
            proof {
                // at most six digits always fit
                lemma_digits_value_upper(s@.skip(dot as int + 1));
                lemma_pow10_le(s@.len() - (dot as int + 1), 6);
                lemma_pow10_6();
                assert(false);
            }
            return Err(RewardsError::InvalidInput);
        },
    };
    // scale the fraction to six decimal places
    let fraclen = n - (dot + 1);
    let mut scale: u64 = 1;
    let mut k: usize = 0;
    while k < 6 - fraclen
        invariant
            k <= 6 - fraclen,
            1 <= fraclen <= 6,
            scale == pow10(k as int),
            scale <= 1_000_000,
        decreases 6 - fraclen - k,
    {
        proof {
            lemma_pow10_le(k as int + 1, 6);
            lemma_pow10_6();
        }
        scale = scale * 10;
        k = k + 1;
    }
    proof {
        lemma_digits_value_upper(s@.skip(dot as int + 1));
        lemma_pow10_le(s@.len() - (dot as int + 1), 6);
        lemma_pow10_split(6 - fraclen as int, fraclen as int);
        lemma_pow10_pos(6 - fraclen as int);
        lemma_pow10_6();
        assert(frac * scale < 1_000_000) by (nonlinear_arith)
            requires
                frac < pow10(fraclen as int),
                scale == pow10(6 - fraclen as int),
                pow10(6 - fraclen as int) * pow10(fraclen as int) == 1_000_000,
                frac >= 0,
                scale >= 1,
        ;
    }
    let scaled_frac = frac * scale;
    let total128 = (whole as u128) * (MINOR_UNITS_PER_UNIT as u128) + (scaled_frac as u128);
    if total128 > u64::MAX as u128 {
        return Err(RewardsError::InvalidInput);
    }
    Ok(total128 as u64)
}

/// Where the first dot can stand.
proof fn lemma_dot_index_bounds(s: Seq<char>)
    ensures
        0 <= dot_index(s) <= s.len(),
        dot_index(s) < s.len() ==> s[dot_index(s)] == '.',
        forall|j: int| 0 <= j < dot_index(s) ==> s[j] != '.',
    decreases s.len(),
{
    if s.len() > 0 && s[0] != '.' {
        lemma_dot_index_bounds(s.drop_first());
        assert forall|j: int| 0 <= j < dot_index(s) implies s[j] != '.' by {
            if j > 0 {
                assert(s.drop_first()[j - 1] == s[j]);
            }
        }
    }
}

/// In a well-formed decimal every character is a digit, except the one dot.
proof fn lemma_wf_char_shape(s: Seq<char>, i: int)
    requires
        well_formed_decimal(s),
        0 <= i < s.len(),
    ensures
        is_digit(s[i]) || (i == dot_index(s) && s[i] == '.'),
{
    lemma_dot_index_bounds(s);
    let d = dot_index(s);
    if d == s.len() {
    } else if i < d {
        assert(s.take(d)[i] == s[i]);
    } else if i > d {
        assert(s.skip(d + 1)[i - d - 1] == s[i]);
    }
}

proof fn lemma_pow10_6()
    ensures
        pow10(6) == 1_000_000,
{
    reveal_with_fuel(pow10, 8);
}

/// `dot_index` of a dot-free string is its length.
proof fn lemma_dot_index_none(s: Seq<char>)
    requires
        forall|j: int| 0 <= j < s.len() ==> s[j] != '.',
    ensures
        dot_index(s) == s.len(),
    decreases s.len(),
{
    if s.len() > 0 {
        lemma_dot_index_none(s.drop_first());
    }
}

/// `dot_index` of a string whose first dot stands at `d` is `d`.
proof fn lemma_dot_index_is_first(s: Seq<char>, d: int)
    requires
        0 <= d < s.len(),
        s[d] == '.',
        forall|j: int| 0 <= j < d ==> s[j] != '.',
    ensures
        dot_index(s) == d,
    decreases d,
{
    if d > 0 {
        lemma_dot_index_is_first(s.drop_first(), d - 1);
    }
}

proof fn lemma_pow10_pos(k: int)
    ensures
        pow10(k) >= 1,
    decreases k,
{
    if k > 0 {
        lemma_pow10_pos(k - 1);
    }
}

proof fn lemma_pow10_le(a: int, b: int)
    requires
        a <= b,
    ensures
        pow10(a) <= pow10(b),
    decreases b,
{
    if a < b && b > 0 {
        lemma_pow10_le(a, b - 1);
        lemma_pow10_pos(b - 1);
    }
}

proof fn lemma_pow10_split(a: int, b: int)
    requires
        a >= 0,
        b >= 0,
    ensures
        pow10(a) * pow10(b) == pow10(a + b),
    decreases a,
{
    if a > 0 {
        lemma_pow10_split(a - 1, b);
        assert(pow10(a) * pow10(b) == 10 * (pow10(a - 1) * pow10(b))) by (nonlinear_arith)
            requires
                pow10(a) == 10 * pow10(a - 1),
        ;
    }
}

/// A whole-unit count beyond `u64::MAX` stays beyond it after scaling.
proof fn lemma_scaling_exceeds(v: int)
    requires
        v > u64::MAX,
    ensures
        v * MINOR_UNITS_PER_UNIT > u64::MAX,
{
    assert(v * MINOR_UNITS_PER_UNIT >= v) by (nonlinear_arith)
        requires
            v > 0,
    ;
}

proof fn lemma_scaling_exceeds_frac(v: int, f: int, p: int)
    requires
        v > u64::MAX,
        f >= 0,
        p >= 1,
    ensures
        v * MINOR_UNITS_PER_UNIT + f * p > u64::MAX,
{
    assert(v * MINOR_UNITS_PER_UNIT >= v) by (nonlinear_arith)
        requires
            v > 0,
    ;
    assert(f * p >= 0) by (nonlinear_arith)
        requires
            f >= 0,
            p >= 0,
    ;
}

} // verus!
