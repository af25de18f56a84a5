use vstd::prelude::*;
use vstd::utf8::encode_utf8;

use crate::civil::{days_in_month, fields_ok, CivilDateTime};
use crate::error::SalesError;

verus! {

pub open spec fn is_digit(b: u8) -> bool {
    48 <= b <= 57
}

/// Value of the decimal digits `s[i..i + n]`.
pub open spec fn digits_value(s: Seq<u8>, i: int, n: nat) -> int
    decreases n,
{
    if n == 0 {
        0
    } else {
        digits_value(s, i, (n - 1) as nat) * 10 + (s[i + n - 1] - 48)
    }
}

/// `s` has the shape `YYYY-MM-DDTHH:MM:SS`.
pub open spec fn has_timestamp_shape(s: Seq<u8>) -> bool {
    &&& s.len() == 19
    &&& forall|i: int|
        0 <= i < 19 && i != 4 && i != 7 && i != 10 && i != 13 && i != 16 ==> is_digit(#[trigger] s[i])
    &&& s[4] == 45 && s[7] == 45 && s[10] == 84 && s[13] == 58 && s[16] == 58
}

/// The fields written in text of timestamp shape.
pub open spec fn timestamp_fields(s: Seq<u8>) -> CivilDateTime {
    CivilDateTime {
        year: digits_value(s, 0, 4) as u64,
        month: digits_value(s, 5, 2) as u8,
        day: digits_value(s, 8, 2) as u8,
        hour: digits_value(s, 11, 2) as u8,
        minute: digits_value(s, 14, 2) as u8,
        second: digits_value(s, 17, 2) as u8,
    }
}

fn read_digits(s: &[u8], i: usize, n: usize) -> (r: u64)
    requires
        i + n <= s@.len(),
        i < 100,
        n <= 4,
        forall|k: int| i <= k < i + n ==> is_digit(#[trigger] s@[k]),
    ensures
        r == digits_value(s@, i as int, n as nat),
        r < pow10(n as nat),
        r < 10000,
{
    let mut v: u64 = 0;
    let mut k: usize = 0;
    assert(pow10(1) == 10 && pow10(2) == 100 && pow10(3) == 1000 && pow10(4) == 10000) by {
        reveal_with_fuel(pow10, 5);
    }
    while k < n
        invariant
            pow10(1) == 10 && pow10(2) == 100 && pow10(3) == 1000 && pow10(4) == 10000,
            pow10(0) == 1,
            k <= n,
            i + n <= s@.len(),
            i < 100,
            n <= 4,
            forall|m: int| i <= m < i + n ==> is_digit(#[trigger] s@[m]),
            v == digits_value(s@, i as int, k as nat),
            v < pow10(k as nat),
        decreases n - k,
    {
        let c = s[i + k];
        assert(pow10((k + 1) as nat) <= 10000);
        assert(is_digit(s@[i + k]));
        assert(v * 10 + (c - 48) < pow10((k + 1) as nat)) by (nonlinear_arith)
            requires
                v < pow10(k as nat),
                pow10((k + 1) as nat) == 10 * pow10(k as nat),
                48 <= c <= 57,
        ;
        v = v * 10 + (c - 48) as u64;
        k = k + 1;
    }
    v
}

pub open spec fn pow10(n: nat) -> int
    decreases n,
{
    if n == 0 { 1 } else { 10 * pow10((n - 1) as nat) }
}

/// Reads a local timestamp written `YYYY-MM-DDTHH:MM:SS`; malformed text and
/// out-of-range fields are refused.
pub fn parse_timestamp(text: &str) -> (r: Result<CivilDateTime, SalesError>)
    ensures
        (has_timestamp_shape(encode_utf8(text@)) && fields_ok(timestamp_fields(encode_utf8(text@))))
            ==> r == Ok::<CivilDateTime, SalesError>(timestamp_fields(encode_utf8(text@))),
        !(has_timestamp_shape(encode_utf8(text@)) && fields_ok(timestamp_fields(encode_utf8(text@))))
            ==> r == Err::<CivilDateTime, SalesError>(SalesError::Parse),
        r matches Ok(d) ==> d.wf(),
{
    let s = text.as_bytes();
    if s.len() != 19 || s[4] != 45 || s[7] != 45 || s[10] != 84 || s[13] != 58 || s[16] != 58 {
        return Err(SalesError::Parse);
    }
    let mut i: usize = 0;
    while i < 19
        invariant
            s@ == encode_utf8(text@),
            s@.len() == 19,
            i <= 19,
            forall|k: int|
                0 <= k < i && k != 4 && k != 7 && k != 10 && k != 13 && k != 16 ==> is_digit(#[trigger] s@[k]),
        decreases 19 - i,
    {
        if i != 4 && i != 7 && i != 10 && i != 13 && i != 16 && !(48 <= s[i] && s[i] <= 57) {
            assert(!is_digit(s@[i as int]));
            assert(!has_timestamp_shape(s@));
            return Err(SalesError::Parse);
        }
        i = i + 1;
    }
    let year = read_digits(s, 0, 4);
    let month = read_digits(s, 5, 2);
    let day = read_digits(s, 8, 2);
    let hour = read_digits(s, 11, 2);
    let minute = read_digits(s, 14, 2);
    let second = read_digits(s, 17, 2);
    assert(pow10(2) == 100) by {
        reveal_with_fuel(pow10, 3);
    }
    assert(timestamp_fields(s@).month == month && timestamp_fields(s@).day == day
        && timestamp_fields(s@).hour == hour && timestamp_fields(s@).minute == minute
        && timestamp_fields(s@).second == second && timestamp_fields(s@).year == year);
    if month < 1 || month > 12 || hour >= 24 || minute >= 60 || second >= 60 {
        return Err(SalesError::Parse);
    }
    let dim = days_in_month(year, month as u8);
    if day < 1 || day > dim as u64 {
        return Err(SalesError::Parse);
    }
    Ok(CivilDateTime {
        year,
        month: month as u8,
        day: day as u8,
        hour: hour as u8,
        minute: minute as u8,
        second: second as u8,
    })
}

} // verus!
