use vstd::prelude::*;

use crate::layout::{starts_with, str_starts_with};
use crate::tz::{instant_in_range, vienna_midnight_of, vienna_midnight_single, vienna_ymd, vienna_ymd_of};

verus! {

/// Whether a character is a decimal digit.
pub open spec fn is_digit(c: char) -> bool {
    48 <= c as u32 <= 57
}

/// The value of a decimal digit character.
pub open spec fn digit_val(c: char) -> int {
    c as u32 - 48
}

/// Whether every character is a decimal digit.
pub open spec fn all_digits(s: Seq<char>) -> bool {
    forall|i: int| 0 <= i < s.len() ==> is_digit(#[trigger] s[i])
}

/// The value of a sequence of decimal digits, most significant first.
pub open spec fn digits_val(s: Seq<char>) -> int
    decreases s.len(),
{
    if s.len() == 0 {
        0
    } else {
        digits_val(s.drop_last()) * 10 + digit_val(s.last())
    }
}

/// A digit string has a non-negative value.
proof fn lemma_digits_val_nonneg(s: Seq<char>)
    requires
        all_digits(s),
    ensures
        digits_val(s) >= 0,
    decreases s.len(),
{
    if s.len() > 0 {
        assert(all_digits(s.drop_last()));
        lemma_digits_val_nonneg(s.drop_last());
    }
}

/// Extending a digit string never shrinks its value.
proof fn lemma_digits_val_prefix(s: Seq<char>, k: int)
    requires
        all_digits(s),
        0 <= k <= s.len(),
    ensures
        digits_val(s) >= digits_val(s.take(k)),
    decreases s.len() - k,
{
    if k < s.len() {
        assert(s.take(k + 1).drop_last() =~= s.take(k));
        assert(all_digits(s.take(k + 1)));
        lemma_digits_val_nonneg(s.take(k));
        assert(digits_val(s.take(k + 1)) == digits_val(s.take(k)) * 10 + digit_val(s.take(k + 1).last()));
        assert(digits_val(s.take(k + 1)) >= digits_val(s.take(k)));
        lemma_digits_val_prefix(s, k + 1);
    } else {
        assert(s.take(k) =~= s);
    }
}

/// What parsing a decimal integer from text yields: an optional sign, then
/// one or more digits and nothing else, with the value in the 32-bit signed
/// range; anything else fails.
pub open spec fn parse_i32_spec(s: Seq<char>) -> Option<i32> {
    let negative = s.len() > 0 && s[0] == '-';
    let signed = s.len() > 0 && (s[0] == '-' || s[0] == '+');
    let digits = if signed {
        s.drop_first()
    } else {
        s
    };
    if digits.len() == 0 || !all_digits(digits) {
        None
    } else {
        let v = if negative {
            -digits_val(digits)
        } else {
            digits_val(digits)
        };
        if -2147483648 <= v <= 2147483647 {
            Some(v as i32)
        } else {
            None
        }
    }
}

/// Parses a decimal integer, as `parse_i32_spec` says.
pub fn parse_i32(s: &str) -> (r: Option<i32>)
    ensures
        r == parse_i32_spec(s@),
{
    let n = s.unicode_len();
    if n == 0 {
        return None;
    }
    let first = s.get_char(0);
    let negative = first == '-';
    let signed = first == '-' || first == '+';
    let start: usize = if signed {
        1
    } else {
        0
    };
    let ghost digits = if signed {
        s@.drop_first()
    } else {
        s@
    };
    proof {
        assert(digits.len() == n - start);
        assert(forall|k: int| 0 <= k < digits.len() ==> digits[k] == s@[k + start]);
    }
    if n == start {
        return None;
    }
    let mut acc: i64 = 0;
    let mut i: usize = start;
    while i < n
        invariant
            start <= i <= n,
            n == s@.len(),
            n > 0,
            signed == (s@[0] == '-' || s@[0] == '+'),
            negative == (s@[0] == '-'),
            start == (if signed {
                1int
            } else {
                0int
            }),
            digits.len() > 0,
            digits == (if signed {
                s@.drop_first()
            } else {
                s@
            }),
            digits.len() == n - start,
            forall|k: int| 0 <= k < digits.len() ==> digits[k] == s@[k + start],
            all_digits(digits.take(i - start)),
            acc == digits_val(digits.take(i - start)),
            0 <= acc <= 2147483648,
        decreases n - i,
    {
        let c = s.get_char(i);
        let cv = c as u32;
        if cv < 48 || cv > 57 {
            proof {
                assert(digits[i - start] == c);
                assert(!is_digit(digits[i - start]));
                assert(!all_digits(digits));
                assert(parse_i32_spec(s@) == None::<i32>);
            }
            return None;
        }
        let d = (cv - 48) as i64;
        acc = acc * 10 + d;
        proof {
            assert(digits.take(i - start + 1).drop_last() =~= digits.take(i - start));
            assert(digits.take(i - start + 1).last() == digits[i - start]);
        }
        i = i + 1;
        if acc > 2147483648 {
            proof {
                assert(acc == digits_val(digits.take(i - start)));
                if all_digits(digits) {
                    lemma_digits_val_prefix(digits, i - start);
                    assert(digits_val(digits) > 2147483648);
                }
                assert(parse_i32_spec(s@) == None::<i32>);
            }
            return None;
        }
    }
    proof {
        assert(digits.take(n - start) =~= digits);
    }
    if negative {
        let v = -acc;
        proof {
            assert(-2147483648 <= v <= 0);
        }
        Some(v as i32)
    } else {
        if acc > 2147483647 {
            return None;
        }
        Some(acc as i32)
    }
}

/// The date component of a directory name: the rest of the name after the
/// given prefix, parsed as a decimal integer; `None` when the name does not
/// start with the prefix or the rest does not parse.
pub fn extract_date_part(name: &str, prefix: &str) -> (r: Option<i32>)
    ensures
        r == (if starts_with(name@, prefix@) {
            parse_i32_spec(name@.skip(prefix@.len() as int))
        } else {
            None::<i32>
        }),
{
    if !str_starts_with(name, prefix) {
        return None;
    }
    let nl = name.unicode_len();
    let pl = prefix.unicode_len();
    let rest = name.substring_char(pl, nl);
    proof {
        assert(rest@ =~= name@.skip(prefix@.len() as int));
    }
    parse_i32(rest)
}

/// Whether one calendar date falls strictly before another.
pub open spec fn ymd_before(a: (i32, u32, u32), b: (i32, u32, u32)) -> bool {
    a.0 < b.0 || (a.0 == b.0 && (a.1 < b.1 || (a.1 == b.1 && a.2 < b.2)))
}

/// The retention cutoff instant: the given number of whole days before now.
pub fn retention_cutoff(now_micros: i64, retention_days: u64) -> (r: i64)
    requires
        retention_days <= 100_000_000,
        now_micros - retention_days * 86_400_000_000 >= i64::MIN,
    ensures
        r == now_micros - retention_days * 86_400_000_000,
{
    now_micros - (retention_days as i64) * 86_400_000_000
}

/// Whether a day directory parsed to the given calendar date is expired and
/// must be deleted: the components are non-negative, midnight of that date
/// exists exactly once in the reference timezone, and the date falls
/// strictly before the cutoff instant's reference-timezone date, comparing
/// dates only.
pub open spec fn day_expired(y: i32, m: i32, d: i32, cutoff_micros: i64) -> bool {
    m >= 0 && d >= 0 && vienna_midnight_single(y, m as u32, d as u32) && ymd_before(
        (y, m as u32, d as u32),
        vienna_ymd(cutoff_micros),
    )
}

/// Decides whether a day directory is expired, given the parsed year, month
/// and day components and the cutoff instant.
pub fn should_delete_day(y: i32, m: i32, d: i32, cutoff_micros: i64) -> (r: bool)
    requires
        instant_in_range(cutoff_micros),
    ensures
        r == day_expired(y, m, d, cutoff_micros),
{
    if m < 0 || d < 0 {
        return false;
    }
    if !vienna_midnight_of(y, m as u32, d as u32) {
        return false;
    }
    let (cy, cm, cd) = vienna_ymd_of(cutoff_micros);
    y < cy || (y == cy && ((m as u32) < cm || (m as u32 == cm && (d as u32) < cd)))
}

} // verus!
