//! The epoch timestamp of a catalog record: a fixed
//! `YYYY-MM-DDTHH:MM:SS` pattern with an optional six-digit fraction,
//! parsed into microseconds since the Unix epoch.
//!
//! The grammar and the calendar arithmetic are stated as spec
//! functions, and the parser returns `Some` exactly on the strings the
//! grammar admits.

use vstd::prelude::*;

verus! {

/// One ASCII decimal digit.
pub open spec fn is_digit(c: char) -> bool {
    48 <= c as u32 <= 57
}

/// The value of one ASCII decimal digit.
pub open spec fn digit_val(c: char) -> int {
    c as u32 - 48
}

/// The value of the fixed-width digit run `s[from .. from + width]`.
pub open spec fn digits_val(s: Seq<char>, from: int, width: int) -> int
    decreases width,
{
    if width <= 0 {
        0
    } else {
        digits_val(s, from, width - 1) * 10 + digit_val(s[from + width - 1])
    }
}

/// Whether `s[from .. from + width]` holds only decimal digits.
pub open spec fn all_digits(s: Seq<char>, from: int, width: int) -> bool {
    forall|i: int| from <= i < from + width ==> is_digit(#[trigger] s[i])
}

/// The Gregorian leap-year rule.
pub open spec fn is_leap_year(y: int) -> bool {
    (y % 4 == 0 && y % 100 != 0) || y % 400 == 0
}

/// Days in a month of the proleptic Gregorian calendar.
pub open spec fn days_in_month(y: int, m: int) -> int {
    if m == 2 {
        if is_leap_year(y) {
            29
        } else {
            28
        }
    } else if m == 4 || m == 6 || m == 9 || m == 11 {
        30
    } else {
        31
    }
}

/// Days from 1970-01-01 to the civil date `y-m-d`, by the era
/// decomposition of the proleptic Gregorian calendar.
pub open spec fn days_from_civil(y: int, m: int, d: int) -> int {
    let yy = if m <= 2 {
        y - 1
    } else {
        y
    };
    let era = yy / 400;
    let yoe = yy - era * 400;
    let mp = if m > 2 {
        m - 3
    } else {
        m + 9
    };
    let doy = (153 * mp + 2) / 5 + d - 1;
    let doe = yoe * 365 + yoe / 4 - yoe / 100 + doy;
    era * 146097 + doe - 719468
}

/// The strings the epoch grammar admits: `YYYY-MM-DDTHH:MM:SS`, with an
/// optional `.ffffff` fraction of exactly six digits, and all fields in
/// calendar range.
pub open spec fn timestamp_valid(s: Seq<char>) -> bool {
    &&& (s.len() == 19 || s.len() == 26)
    &&& all_digits(s, 0, 4)
    &&& s[4] == '-'
    &&& all_digits(s, 5, 2)
    &&& s[7] == '-'
    &&& all_digits(s, 8, 2)
    &&& s[10] == 'T'
    &&& all_digits(s, 11, 2)
    &&& s[13] == ':'
    &&& all_digits(s, 14, 2)
    &&& s[16] == ':'
    &&& all_digits(s, 17, 2)
    &&& (s.len() == 26 ==> s[19] == '.' && all_digits(s, 20, 6))
    &&& 1 <= digits_val(s, 5, 2) <= 12
    &&& 1 <= digits_val(s, 8, 2) <= days_in_month(digits_val(s, 0, 4), digits_val(s, 5, 2))
    &&& digits_val(s, 11, 2) <= 23
    &&& digits_val(s, 14, 2) <= 59
    &&& digits_val(s, 17, 2) <= 59
}

/// The instant a valid timestamp denotes, in microseconds since the
/// Unix epoch.
pub open spec fn timestamp_micros(s: Seq<char>) -> int {
    let days = days_from_civil(digits_val(s, 0, 4), digits_val(s, 5, 2), digits_val(s, 8, 2));
    let secs = days * 86400 + digits_val(s, 11, 2) * 3600 + digits_val(s, 14, 2) * 60 + digits_val(
        s,
        17,
        2,
    );
    let frac = if s.len() == 26 {
        digits_val(s, 20, 6)
    } else {
        0
    };
    secs * 1_000_000 + frac
}

/// The parse as a mathematical function: `Some` exactly on the strings
/// the grammar admits.
pub open spec fn parse_epoch_spec(s: Seq<char>) -> Option<int> {
    if timestamp_valid(s) {
        Some(timestamp_micros(s))
    } else {
        None
    }
}

/// Powers of ten, for digit-run bounds.
pub open spec fn pow10(w: int) -> int
    decreases w,
{
    if w <= 0 {
        1
    } else {
        10 * pow10(w - 1)
    }
}

/// A digit run of width `w` is below `10^w`.
proof fn lemma_digits_val_bound(s: Seq<char>, from: int, width: int)
    requires
        0 <= width,
        all_digits(s, from, width),
    ensures
        0 <= digits_val(s, from, width) < pow10(width),
    decreases width,
{
    if width > 0 {
        lemma_digits_val_bound(s, from, width - 1);
        assert(is_digit(s[from + width - 1]));
    }
}

/// Read a fixed-width digit run as a number; `None` if any position is
/// not a decimal digit.
fn parse_digits(s: &str, from: usize, width: usize) -> (r: Option<i64>)
    requires
        from + width <= s@.len(),
        from + width <= usize::MAX,
        width <= 6,
    ensures
        r is Some <==> all_digits(s@, from as int, width as int),
        r matches Some(v) ==> v == digits_val(s@, from as int, width as int) && 0 <= v < pow10(
            width as int,
        ),
{
    let mut val: i64 = 0;
    let mut i: usize = 0;
    while i < width
        invariant
            i <= width <= 6,
            from + width <= s@.len(),
            from + width <= usize::MAX,
            all_digits(s@, from as int, i as int),
            val == digits_val(s@, from as int, i as int),
            0 <= val < pow10(i as int),
        decreases width - i,
    {
        let c = s.get_char(from + i);
        let u = c as u32;
        if u < 48 || u > 57 {
            assert(!is_digit(s@[from + i as int]));
            return None;
        }
        proof {
            reveal_with_fuel(pow10, 8);
            assert(pow10(i as int) <= 100_000);
        }
        val = val * 10 + ((u - 48) as i64);
        i = i + 1;
    }
    Some(val)
}

/// Days in a month, as executable code.
fn days_in_month_exec(y: i64, m: i64) -> (r: i64)
    requires
        0 <= y <= 9999,
        1 <= m <= 12,
    ensures
        r == days_in_month(y as int, m as int),
{
    if m == 2 {
        if (y % 4 == 0 && y % 100 != 0) || y % 400 == 0 {
            29
        } else {
            28
        }
    } else if m == 4 || m == 6 || m == 9 || m == 11 {
        30
    } else {
        31
    }
}

/// Days from the Unix epoch to a civil date, as executable code.
fn civil_days(y: i64, m: i64, d: i64) -> (r: i64)
    requires
        0 <= y <= 9999,
        1 <= m <= 12,
        1 <= d <= 31,
    ensures
        r == days_from_civil(y as int, m as int, d as int),
        -800_000 <= r <= 3_000_000,
{
    let yy: i64 = if m <= 2 {
        y - 1
    } else {
        y
    };
    let era: i64 = if yy >= 0 {
        yy / 400
    } else {
        -1
    };
    assert(era == (yy as int) / 400) by {
        if yy < 0 {
            assert((-1) * 400 + 399 == -1int);
            vstd::arithmetic::div_mod::lemma_fundamental_div_mod_converse(yy as int, 400, -1, 399);
        }
    }
    let yoe: i64 = yy - era * 400;
    let mp: i64 = if m > 2 {
        m - 3
    } else {
        m + 9
    };
    let doy: i64 = (153 * mp + 2) / 5 + d - 1;
    let doe: i64 = yoe * 365 + yoe / 4 - yoe / 100 + doy;
    era * 146097 + doe - 719468
}

/// Parse a catalog epoch timestamp into microseconds since the Unix
/// epoch; `None` exactly when the string does not match the grammar.
pub fn parse_time_from_str(time_str: &str) -> (r: Option<i64>)
    ensures
        r is Some <==> timestamp_valid(time_str@),
        r matches Some(v) ==> Some(v as int) == parse_epoch_spec(time_str@),
{
    let n = time_str.unicode_len();
    if n != 19 && n != 26 {
        return None;
    }
    if time_str.get_char(4) != '-' || time_str.get_char(7) != '-' || time_str.get_char(10) != 'T'
        || time_str.get_char(13) != ':' || time_str.get_char(16) != ':' {
        return None;
    }
    let year = match parse_digits(time_str, 0, 4) {
        Some(v) => v,
        None => {
            return None;
        },
    };
    let month = match parse_digits(time_str, 5, 2) {
        Some(v) => v,
        None => {
            return None;
        },
    };
    let day = match parse_digits(time_str, 8, 2) {
        Some(v) => v,
        None => {
            return None;
        },
    };
    let hour = match parse_digits(time_str, 11, 2) {
        Some(v) => v,
        None => {
            return None;
        },
    };
    let minute = match parse_digits(time_str, 14, 2) {
        Some(v) => v,
        None => {
            return None;
        },
    };
    let second = match parse_digits(time_str, 17, 2) {
        Some(v) => v,
        None => {
            return None;
        },
    };
    let frac: i64 = if n == 26 {
        if time_str.get_char(19) != '.' {
            return None;
        }
        match parse_digits(time_str, 20, 6) {
            Some(v) => v,
            None => {
                return None;
            },
        }
    } else {
        0
    };
    proof {
        reveal_with_fuel(pow10, 8);
        lemma_digits_val_bound(time_str@, 0, 4);
        lemma_digits_val_bound(time_str@, 5, 2);
        lemma_digits_val_bound(time_str@, 8, 2);
        lemma_digits_val_bound(time_str@, 11, 2);
        lemma_digits_val_bound(time_str@, 14, 2);
        lemma_digits_val_bound(time_str@, 17, 2);
    }
    if month < 1 || month > 12 {
        return None;
    }
    if day < 1 || day > days_in_month_exec(year, month) {
        return None;
    }
    if hour > 23 || minute > 59 || second > 59 {
        return None;
    }
    let days = civil_days(year, month, day);
    let secs: i64 = days * 86400 + hour * 3600 + minute * 60 + second;
    Some(secs * 1_000_000 + frac)
}

} // verus!
