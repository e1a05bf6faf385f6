//! Calendar timestamps as plain fields, and the date a log file's name encodes.
use vstd::prelude::*;
use chrono::NaiveDate;
use crate::scanner::is_digit;
use vstd::string::StringSliceAdditionalSpecFns;

verus! {

/// A local date and time, field by field.
#[derive(Debug, PartialEq, Eq, Structural, Clone, Copy)]
pub struct LogDate {
    pub year: i32,
    pub month: u32,
    pub day: u32,
    pub hour: u32,
    pub minute: u32,
    pub second: u32,
    /// Nanoseconds past the second; a leap second runs on past one billion.
    pub nanosecond: u32,
}

pub open spec fn is_leap_year(y: int) -> bool {
    (y % 4 == 0 && y % 100 != 0) || y % 400 == 0
}

pub open spec fn days_in_month(y: int, m: int) -> int {
    if m == 2 {
        if is_leap_year(y) {
            29
        } else {
            28
        }
    } else if m == 4 || m == 6 || m == 9 || m == 11 {
        30
    } else {
        31
    }
}

/// The day exists in the Gregorian calendar.
pub open spec fn valid_ymd(y: int, m: int, d: int) -> bool {
    1 <= m <= 12 && 1 <= d <= days_in_month(y, m)
}

impl LogDate {
    pub open spec fn wf(&self) -> bool {
        &&& valid_ymd(self.year as int, self.month as int, self.day as int)
        &&& self.hour < 24
        &&& self.minute < 60
        &&& self.second < 60
        &&& self.nanosecond < 2_000_000_000
    }
}

/// The start of the given hour.
pub open spec fn hour_start(y: i32, m: u32, d: u32, h: u32) -> LogDate {
    LogDate { year: y, month: m, day: d, hour: h, minute: 0, second: 0, nanosecond: 0 }
}

/// Relies on chrono's NaiveDate::from_ymd_opt: it accepts exactly the days of the
/// Gregorian calendar, in a range of years far wider than this one.
#[verifier::external_body]
fn calendar_day_exists(year: i32, month: u32, day: u32) -> (r: bool)
    requires
        2000 <= year <= 2099,
    ensures
        r == valid_ymd(year as int, month as int, day as int),
{
    NaiveDate::from_ymd_opt(year, month, day).is_some()
}

pub open spec fn two_digits(b: Seq<u8>, i: int) -> int {
    (b[i] - 48) * 10 + (b[i + 1] - 48)
}

/// The hour a file covers, from the first eight bytes of its name: `YYMMDDHH`,
/// with the year counted from 2000.
pub open spec fn file_date(b: Seq<u8>) -> Option<LogDate> {
    if b.len() >= 8 && (forall|i: int| 0 <= i < 8 ==> is_digit(#[trigger] b[i])) && valid_ymd(
        2000 + two_digits(b, 0),
        two_digits(b, 2),
        two_digits(b, 4),
    ) && two_digits(b, 6) < 24 {
        Some(
            hour_start(
                (2000 + two_digits(b, 0)) as i32,
                two_digits(b, 2) as u32,
                two_digits(b, 4) as u32,
                two_digits(b, 6) as u32,
            ),
        )
    } else {
        None
    }
}

fn read_two_digits(b: &[u8], i: usize) -> (r: Option<u32>)
    requires
        i + 1 < b@.len(),
    ensures
        r.is_some() == (is_digit(b@[i as int]) && is_digit(b@[i + 1])),
        r matches Some(v) ==> v == two_digits(b@, i as int),
{
    let hi = b[i];
    let lo = b[i + 1];
    if hi < 48u8 || hi > 57u8 || lo < 48u8 || lo > 57u8 {
        None
    } else {
        Some(((hi - 48u8) as u32) * 10 + ((lo - 48u8) as u32))
    }
}

/// The date and hour encoded by a log file's name (its last path component).
pub fn parse_date_file(name: &str) -> (r: Option<LogDate>)
    ensures
        r == file_date(name.spec_bytes()),
        r matches Some(d) ==> d.wf(),
{
    let b = name.as_bytes();
    if b.len() < 8 {
        return None;
    }
    let yy = match read_two_digits(b, 0) {
        Some(v) => v,
        None => return None,
    };
    let mm = match read_two_digits(b, 2) {
        Some(v) => v,
        None => return None,
    };
    let dd = match read_two_digits(b, 4) {
        Some(v) => v,
        None => return None,
    };
    let hh = match read_two_digits(b, 6) {
        Some(v) => v,
        None => return None,
    };
    assert(forall|i: int| 0 <= i < 8 ==> is_digit(#[trigger] b@[i])) by {
        assert forall|i: int| 0 <= i < 8 implies is_digit(#[trigger] b@[i]) by {
            if i == 0 || i == 2 || i == 4 || i == 6 {
            } else {
            }
        }
    }
    let year = 2000 + yy as i32;
    if hh < 24 && calendar_day_exists(year, mm, dd) {
        Some(
            LogDate { year, month: mm, day: dd, hour: hh, minute: 0, second: 0, nanosecond: 0 },
        )
    } else {
        None
    }
}

/// Whether `head` opens with the UTF-8 byte-order mark.
pub open spec fn has_bom(head: Seq<u8>) -> bool {
    head.len() >= 3 && head[0] == 0xEFu8 && head[1] == 0xBBu8 && head[2] == 0xBFu8
}

/// How many leading bytes of a file are a byte-order mark, to be skipped.
pub fn bom_length(head: &[u8]) -> (r: usize)
    ensures
        r == (if has_bom(head@) {
            3usize
        } else {
            0usize
        }),
{
    if head.len() >= 3 && head[0] == 0xEFu8 && head[1] == 0xBBu8 && head[2] == 0xBFu8 {
        3
    } else {
        0
    }
}

/// A log file's name: eight digits, then `.log`.
pub open spec fn is_log_file_name(b: Seq<u8>) -> bool {
    &&& b.len() == 12
    &&& forall|i: int| 0 <= i < 8 ==> is_digit(#[trigger] b[i])
    &&& b[8] == 46u8 && b[9] == 108u8 && b[10] == 111u8 && b[11] == 103u8
}

/// Whether a file, by its name (the last path component), is a log to convert.
pub fn file_name_valid(name: &str) -> (r: bool)
    ensures
        r == is_log_file_name(name.spec_bytes()),
{
    let b = name.as_bytes();
    if b.len() != 12 {
        return false;
    }
    let mut i: usize = 0;
    while i < 8
        invariant
            b@ == name.spec_bytes(),
            b@.len() == 12,
            i <= 8,
            forall|k: int| 0 <= k < i ==> is_digit(#[trigger] b@[k]),
        decreases 8 - i,
    {
        if b[i] < 48u8 || b[i] > 57u8 {
            return false;
        }
        i = i + 1;
    }
    b[8] == 46u8 && b[9] == 108u8 && b[10] == 111u8 && b[11] == 103u8
}

} // verus!
