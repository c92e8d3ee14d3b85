//! Decimal integers as `str::parse` reads them for `i32` and `u32`.
use vstd::prelude::*;

verus! {

/// An ASCII decimal digit.
pub open spec fn is_digit(c: char) -> bool {
    '0' <= c && c <= '9'
}

/// Every character of `s` is a decimal digit.
pub open spec fn all_digits(s: Seq<char>) -> bool {
    forall|i: int| 0 <= i < s.len() ==> is_digit(#[trigger] s[i])
}

/// The value of a string of decimal digits.
pub open spec fn digits_value(s: Seq<char>) -> int
    decreases s.len(),
{
    if s.len() == 0 {
        0
    } else {
        digits_value(s.drop_last()) * 10 + (s.last() as int - '0' as int)
    }
}

/// `s.parse()` for an integer type, before its range is checked: an optional
/// `'+'` (or `'-'`, for a signed type) followed by one or more decimal digits,
/// and nothing else.
pub open spec fn parse_int(s: Seq<char>, signed: bool) -> Option<int> {
    let (neg, ds) = if s.len() > 0 && s[0] == '+' {
        (false, s.drop_first())
    } else if signed && s.len() > 0 && s[0] == '-' {
        (true, s.drop_first())
    } else {
        (false, s)
    };
    signed_digits(ds, neg)
}

/// The value of the digits `ds` with the sign `neg`, where `ds` is a
/// non-empty string of digits.
pub open spec fn signed_digits(ds: Seq<char>, neg: bool) -> Option<int> {
    if ds.len() == 0 || !all_digits(ds) {
        None
    } else if neg {
        Some(-digits_value(ds))
    } else {
        Some(digits_value(ds))
    }
}

/// `s.parse::<i32>().ok()`.
pub open spec fn parse_i32_spec(s: Seq<char>) -> Option<i32> {
    match parse_int(s, true) {
        Some(v) => if i32::MIN <= v <= i32::MAX {
            Some(v as i32)
        } else {
            None
        },
        None => None,
    }
}

/// `s.parse::<u32>().ok()`.
pub open spec fn parse_u32_spec(s: Seq<char>) -> Option<u32> {
    match parse_int(s, false) {
        Some(v) => if 0 <= v <= u32::MAX {
            Some(v as u32)
        } else {
            None
        },
        None => None,
    }
}

proof fn lemma_digits_value_nonneg(s: Seq<char>)
    requires
        all_digits(s),
    ensures
        digits_value(s) >= 0,
    decreases s.len(),
{
    if s.len() > 0 {
        assert(is_digit(s[s.len() - 1]));
        lemma_digits_value_nonneg(s.drop_last());
    }
}

/// Appending digits never makes the value smaller.
proof fn lemma_digits_value_grows(s: Seq<char>, k: int)
    requires
        all_digits(s),
        0 <= k <= s.len(),
    ensures
        digits_value(s.take(k)) <= digits_value(s),
    decreases s.len() - k,
{
    if k < s.len() {
        lemma_digits_value_grows(s, k + 1);
        assert(s.take(k + 1).drop_last() =~= s.take(k));
        assert(is_digit(s[k]));
        assert(all_digits(s.take(k))) by {
            assert forall|i: int| 0 <= i < s.take(k).len() implies is_digit(
                #[trigger] s.take(k)[i],
            ) by {
                assert(s.take(k)[i] == s[i]);
            }
        }
        lemma_digits_value_nonneg(s.take(k));
    } else {
        assert(s.take(k) =~= s);
    }
}

/// The sign and magnitude of `s` read as an integer, where the magnitude is
/// at most 2^32; `None` where `s` is no integer or its magnitude is larger.
fn parse_magnitude(s: &Vec<char>, signed: bool) -> (r: Option<(bool, u64)>)
    ensures
        r matches Some((neg, m)) ==> m <= 0x1_0000_0000 && parse_int(s@, signed) == Some(
            if neg {
                -(m as int)
            } else {
                m as int
            },
        ),
        r matches Some((neg, _)) ==> (neg ==> signed),
        r is None ==> (parse_int(s@, signed) matches Some(v) ==> (v > 0x1_0000_0000 || v
            < -0x1_0000_0000)),
{
    let n = s.len();
    let mut start: usize = 0;
    let mut neg = false;
    if n > 0 && s[0] == '+' {
        start = 1;
    } else if signed && n > 0 && s[0] == '-' {
        start = 1;
        neg = true;
    }
    let ghost ds = s@.skip(start as int);
    assert(start == 1 ==> ds =~= s@.drop_first());
    assert(start == 0 ==> ds =~= s@);
    if start == n {
        return None;
    }
    let mut m: u64 = 0;
    let mut i: usize = start;
    while i < n
        invariant
            start <= i <= n,
            start < n,
            ds == s@.skip(start as int),
            ds.len() == n - start,
            parse_int(s@, signed) == signed_digits(ds, neg),
            n == s@.len(),
            m <= 0x1_0000_0000,
            all_digits(ds.take(i - start)),
            m as int == digits_value(ds.take(i - start)),
        decreases n - i,
    {
        let c = s[i];
        if !('0' <= c && c <= '9') {
            assert(ds[i - start] == c);
            assert(!all_digits(ds));
            return None;
        }
        let d = (c as u32 - '0' as u32) as u64;
        assert(ds.take(i - start + 1).drop_last() =~= ds.take(i - start));
        assert(ds.take(i - start + 1).last() == c);
        assert(all_digits(ds.take(i - start + 1))) by {
            assert forall|j: int| 0 <= j < ds.take(i - start + 1).len() implies is_digit(
                #[trigger] ds.take(i - start + 1)[j],
            ) by {
                if j < i - start {
                    assert(ds.take(i - start + 1)[j] == ds.take(i - start)[j]);
                }
            }
        }
        let next = m * 10 + d;
        i += 1;
        if next > 0x1_0000_0000 {
            proof {
                if all_digits(ds) {
                    lemma_digits_value_grows(ds, i - start);
                }
            }
            return None;
        }
        m = next;
    }
    assert(ds.take(n - start) =~= ds);
    Some((neg, m))
}

/// `s.parse::<i32>().ok()`.
pub fn parse_i32(s: &Vec<char>) -> (r: Option<i32>)
    ensures
        r == parse_i32_spec(s@),
{
    match parse_magnitude(s, true) {
        Some((neg, m)) => {
            if neg {
                if m <= 0x8000_0000 {
                    Some((0 - (m as i64)) as i32)
                } else {
                    None
                }
            } else {
                if m <= 0x7fff_ffff {
                    Some(m as i32)
                } else {
                    None
                }
            }
        },
        None => None,
    }
}

/// `s.parse::<u32>().ok()`.
pub fn parse_u32(s: &Vec<char>) -> (r: Option<u32>)
    ensures
        r == parse_u32_spec(s@),
{
    match parse_magnitude(s, false) {
        Some((neg, m)) => {
            if !neg && m <= 0xffff_ffff {
                Some(m as u32)
            } else {
                None
            }
        },
        None => None,
    }
}

/// A string of decimal digits reads as its value, where that fits an `i32`.
pub proof fn law_decimal_i32(ds: Seq<char>)
    requires
        ds.len() > 0,
        all_digits(ds),
        digits_value(ds) <= i32::MAX,
    ensures
        parse_i32_spec(ds) == Some(digits_value(ds) as i32),
{
    assert(is_digit(ds[0]));
    lemma_digits_value_nonneg(ds);
}

/// A string of decimal digits reads as its value, where that fits a `u32`.
pub proof fn law_decimal_u32(ds: Seq<char>)
    requires
        ds.len() > 0,
        all_digits(ds),
        digits_value(ds) <= u32::MAX,
    ensures
        parse_u32_spec(ds) == Some(digits_value(ds) as u32),
{
    assert(is_digit(ds[0]));
    lemma_digits_value_nonneg(ds);
}

} // verus!
