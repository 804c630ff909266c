//! The HTTP date as a record of its parts, read from any of the three
//! formats in which a date may arrive and always held in the one preferred
//! form.
//!
//! What is checked is the shape of the text and the range of each number:
//! the day of the month from 1 to 31, the hour up to 23, the minute up to 59,
//! the second up to 60 (a leap second). Whether the day exists in its month,
//! and whether the day name is that of the date, is not looked at. A year of
//! two digits from 70 on is taken as 19xx, one below 70 as 20xx.

use crate::text::{chars_of, digit_char, digit_value, is_digit};
use vstd::prelude::*;
use vstd::string::*;

verus! {

/// The only time zone an HTTP date is written in.
pub const GMT: &'static str = "GMT";

/// A date and time of day, held both as text and as numbers.
#[derive(Debug, PartialEq)]
pub struct HttpDate {
    /// "Mon", "Tue", "Wed", "Thu", "Fri", "Sat" or "Sun".
    pub day_name: String,
    /// Day, month and year with a blank between, such as `02 Jun 1982`.
    pub date: String,
    /// The day of the month.
    pub day: u8,
    /// "Jan", "Feb", "Mar", "Apr", "May", "Jun", "Jul", "Aug", "Sep", "Oct",
    /// "Nov" or "Dec".
    pub month: String,
    /// The year, in four digits.
    pub year: u16,
    /// Hour, minute and second with colons between, from `00:00:00` to
    /// `23:59:60`.
    pub time_of_day: String,
    pub hour: u8,
    pub minute: u8,
    pub second: u8,
}

/// What an `HttpDate` stands for in contracts.
pub struct DateParts {
    pub day_name: Seq<char>,
    pub date: Seq<char>,
    pub day: u8,
    pub month: Seq<char>,
    pub year: u16,
    pub time_of_day: Seq<char>,
    pub hour: u8,
    pub minute: u8,
    pub second: u8,
}

impl View for HttpDate {
    type V = DateParts;

    open spec fn view(&self) -> DateParts {
        DateParts {
            day_name: self.day_name@,
            date: self.date@,
            day: self.day,
            month: self.month@,
            year: self.year,
            time_of_day: self.time_of_day@,
            hour: self.hour,
            minute: self.minute,
            second: self.second,
        }
    }
}

pub open spec fn is_day_name(a: char, b: char, c: char) -> bool {
    ||| (a == 'M' && b == 'o' && c == 'n')
    ||| (a == 'T' && b == 'u' && c == 'e')
    ||| (a == 'W' && b == 'e' && c == 'd')
    ||| (a == 'T' && b == 'h' && c == 'u')
    ||| (a == 'F' && b == 'r' && c == 'i')
    ||| (a == 'S' && b == 'a' && c == 't')
    ||| (a == 'S' && b == 'u' && c == 'n')
}

pub open spec fn is_month_name(a: char, b: char, c: char) -> bool {
    ||| (a == 'J' && b == 'a' && c == 'n')
    ||| (a == 'F' && b == 'e' && c == 'b')
    ||| (a == 'M' && b == 'a' && c == 'r')
    ||| (a == 'A' && b == 'p' && c == 'r')
    ||| (a == 'M' && b == 'a' && c == 'y')
    ||| (a == 'J' && b == 'u' && c == 'n')
    ||| (a == 'J' && b == 'u' && c == 'l')
    ||| (a == 'A' && b == 'u' && c == 'g')
    ||| (a == 'S' && b == 'e' && c == 'p')
    ||| (a == 'O' && b == 'c' && c == 't')
    ||| (a == 'N' && b == 'o' && c == 'v')
    ||| (a == 'D' && b == 'e' && c == 'c')
}

/// What follows the first three letters in the full name of a day, told by
/// the first two of them.
pub open spec fn long_day_tail(a: char, b: char) -> Seq<char> {
    if a == 'T' && b == 'u' {
        seq!['s', 'd', 'a', 'y']
    } else if a == 'W' {
        seq!['n', 'e', 's', 'd', 'a', 'y']
    } else if a == 'T' {
        seq!['r', 's', 'd', 'a', 'y']
    } else if a == 'S' && b == 'a' {
        seq!['u', 'r', 'd', 'a', 'y']
    } else {
        seq!['d', 'a', 'y']
    }
}

/// The number written in the two characters from `at` on, if both are digits.
pub open spec fn two_digits(s: Seq<char>, at: int) -> Option<nat> {
    if 0 <= at && at + 2 <= s.len() && is_digit(s[at]) && is_digit(s[at + 1]) {
        Some(digit_value(s[at]) * 10 + digit_value(s[at + 1]))
    } else {
        None
    }
}

/// The number written in the four characters from `at` on, if all are digits.
pub open spec fn four_digits(s: Seq<char>, at: int) -> Option<nat> {
    match (two_digits(s, at), two_digits(s, at + 2)) {
        (Some(high), Some(low)) => Some(high * 100 + low),
        _ => None,
    }
}

/// Hour, minute and second of the eight characters `hh:mm:ss` from `at` on.
pub open spec fn time_at(s: Seq<char>, at: int) -> Option<(nat, nat, nat)> {
    if 0 <= at && at + 8 <= s.len() && s[at + 2] == ':' && s[at + 5] == ':' {
        match (two_digits(s, at), two_digits(s, at + 3), two_digits(s, at + 6)) {
            (Some(hour), Some(minute), Some(second)) => if hour <= 23 && minute <= 59 && second
                <= 60 {
                Some((hour, minute, second))
            } else {
                None
            },
            _ => None,
        }
    } else {
        None
    }
}

pub open spec fn gmt_at(s: Seq<char>, at: int) -> bool {
    0 <= at && at + 3 <= s.len() && s[at] == 'G' && s[at + 1] == 'M' && s[at + 2] == 'T'
}

pub open spec fn two_digit_text(n: nat) -> Seq<char> {
    seq![digit_char(n / 10), digit_char(n % 10)]
}

pub open spec fn four_digit_text(n: nat) -> Seq<char> {
    two_digit_text(n / 100) + two_digit_text(n % 100)
}

/// The century that a year of two digits is taken to lie in.
pub open spec fn full_year(short: nat) -> nat {
    if short >= 70 {
        1900 + short
    } else {
        2000 + short
    }
}

/// The record for the given parts, with its two texts in the preferred form.
pub open spec fn date_parts(
    day_name: Seq<char>,
    day: nat,
    month: Seq<char>,
    year: nat,
    time: (nat, nat, nat),
) -> DateParts {
    DateParts {
        day_name,
        date: two_digit_text(day) + seq![' '] + month + seq![' '] + four_digit_text(year),
        day: day as u8,
        month,
        year: year as u16,
        time_of_day: two_digit_text(time.0) + seq![':'] + two_digit_text(time.1) + seq![':']
            + two_digit_text(time.2),
        hour: time.0 as u8,
        minute: time.1 as u8,
        second: time.2 as u8,
    }
}

/// A record written in the preferred format: day name, comma, date, time
/// of day and `GMT`, with one blank between each two.
pub open spec fn imf_text(d: DateParts) -> Seq<char> {
    d.day_name + seq![',', ' '] + d.date + seq![' '] + d.time_of_day + seq![' ', 'G', 'M', 'T']
}

/// The preferred format, always 29 characters: `Sun, 06 Nov 1994 08:49:37 GMT`.
pub open spec fn imf_fixdate(s: Seq<char>) -> Option<DateParts> {
    if s.len() == 29 && is_day_name(s[0], s[1], s[2]) && s[3] == ',' && s[4] == ' ' && s[7] == ' '
        && is_month_name(s[8], s[9], s[10]) && s[11] == ' ' && s[16] == ' ' && s[25] == ' '
        && gmt_at(s, 26) {
        match (two_digits(s, 5), four_digits(s, 12), time_at(s, 17)) {
            (Some(day), Some(year), Some(time)) => if 1 <= day <= 31 {
                Some(date_parts(s.subrange(0, 3), day, s.subrange(8, 11), year, time))
            } else {
                None
            },
            _ => None,
        }
    } else {
        None
    }
}

/// The older format with the day's full name and a year of two digits:
/// `Sunday, 06-Nov-94 08:49:37 GMT`.
pub open spec fn rfc850_date(s: Seq<char>) -> Option<DateParts> {
    let n = s.len() - 24;
    if n >= 6 && is_day_name(s[0], s[1], s[2]) && s.subrange(3, n) == long_day_tail(s[0], s[1])
        && s[n] == ',' && s[n + 1] == ' ' && s[n + 4] == '-' && is_month_name(
        s[n + 5],
        s[n + 6],
        s[n + 7],
    ) && s[n + 8] == '-' && s[n + 11] == ' ' && s[n + 20] == ' ' && gmt_at(s, n + 21) {
        match (two_digits(s, n + 2), two_digits(s, n + 9), time_at(s, n + 12)) {
            (Some(day), Some(year), Some(time)) => if 1 <= day <= 31 {
                Some(
                    date_parts(
                        s.subrange(0, 3),
                        day,
                        s.subrange(n + 5, n + 8),
                        full_year(year),
                        time,
                    ),
                )
            } else {
                None
            },
            _ => None,
        }
    } else {
        None
    }
}

/// The day of the month as the third format writes it: two digits, or a
/// blank and one digit.
pub open spec fn padded_day(s: Seq<char>, at: int) -> Option<nat> {
    if 0 <= at && at + 2 <= s.len() && s[at] == ' ' && is_digit(s[at + 1]) {
        Some(digit_value(s[at + 1]))
    } else {
        two_digits(s, at)
    }
}

/// The format of the C library, always 24 characters: `Sun Nov  6 08:49:37 1994`.
pub open spec fn asctime_date(s: Seq<char>) -> Option<DateParts> {
    if s.len() == 24 && is_day_name(s[0], s[1], s[2]) && s[3] == ' ' && is_month_name(
        s[4],
        s[5],
        s[6],
    ) && s[7] == ' ' && s[10] == ' ' && s[19] == ' ' {
        match (padded_day(s, 8), four_digits(s, 20), time_at(s, 11)) {
            (Some(day), Some(year), Some(time)) => if 1 <= day <= 31 {
                Some(date_parts(s.subrange(0, 3), day, s.subrange(4, 7), year, time))
            } else {
                None
            },
            _ => None,
        }
    } else {
        None
    }
}

/// A date in whichever of the three formats the text is in. No text is in
/// two of them: the fourth character is a comma in the first, a letter in the
/// second and a blank in the third.
pub open spec fn http_date(s: Seq<char>) -> Option<DateParts> {
    if imf_fixdate(s) is Some {
        imf_fixdate(s)
    } else if rfc850_date(s) is Some {
        rfc850_date(s)
    } else {
        asctime_date(s)
    }
}

/// Two digits written for a number below a hundred read back as the number.
pub proof fn lemma_two_digits_read_back(s: Seq<char>, at: int, n: nat)
    requires
        0 <= at,
        at + 2 <= s.len(),
        n <= 99,
        s[at] == two_digit_text(n)[0],
        s[at + 1] == two_digit_text(n)[1],
    ensures
        two_digits(s, at) == Some(n),
{
    let high = n / 10;
    let low = n % 10;
    assert(is_digit(digit_char(high)) && digit_value(digit_char(high)) == high);
    assert(is_digit(digit_char(low)) && digit_value(digit_char(low)) == low);
}

/// A record made of a day name, a month name and numbers in their ranges,
/// written in the preferred format, reads back as the same record.
pub proof fn lemma_parts_read_back(
    day_name: Seq<char>,
    day: nat,
    month: Seq<char>,
    year: nat,
    time: (nat, nat, nat),
)
    requires
        day_name.len() == 3,
        is_day_name(day_name[0], day_name[1], day_name[2]),
        month.len() == 3,
        is_month_name(month[0], month[1], month[2]),
        1 <= day <= 31,
        year <= 9999,
        time.0 <= 23,
        time.1 <= 59,
        time.2 <= 60,
    ensures
        imf_fixdate(imf_text(date_parts(day_name, day, month, year, time))) == Some(
            date_parts(day_name, day, month, year, time),
        ),
{
    let parts = date_parts(day_name, day, month, year, time);
    let s = imf_text(parts);
    let date = parts.date;
    let tod = parts.time_of_day;
    assert(date.len() == 11 && tod.len() == 8);
    assert(s.len() == 29);
    assert(s[0] == day_name[0] && s[1] == day_name[1] && s[2] == day_name[2]);
    assert(s[3] == ',' && s[4] == ' ');
    assert forall|k: int| 0 <= k < 11 implies s[5 + k] == date[k] by {}
    assert forall|k: int| 0 <= k < 8 implies s[17 + k] == tod[k] by {}
    assert(s[16] == ' ' && s[25] == ' ' && s[26] == 'G' && s[27] == 'M' && s[28] == 'T');
    assert(date[0] == two_digit_text(day)[0] && date[1] == two_digit_text(day)[1]);
    assert(date[2] == ' ' && date[6] == ' ');
    assert(date[3] == month[0] && date[4] == month[1] && date[5] == month[2]);
    assert(date[7] == two_digit_text(year / 100)[0] && date[8] == two_digit_text(year / 100)[1]);
    assert(date[9] == two_digit_text(year % 100)[0] && date[10] == two_digit_text(year % 100)[1]);
    assert(tod[0] == two_digit_text(time.0)[0] && tod[1] == two_digit_text(time.0)[1]);
    assert(tod[2] == ':' && tod[5] == ':');
    assert(tod[3] == two_digit_text(time.1)[0] && tod[4] == two_digit_text(time.1)[1]);
    assert(tod[6] == two_digit_text(time.2)[0] && tod[7] == two_digit_text(time.2)[1]);
    assert(s[5] == date[0] && s[6] == date[1] && s[7] == date[2] && s[8] == date[3] && s[9]
        == date[4] && s[10] == date[5] && s[11] == date[6] && s[12] == date[7] && s[13]
        == date[8] && s[14] == date[9] && s[15] == date[10]);
    assert(s[17] == tod[0] && s[18] == tod[1] && s[19] == tod[2] && s[20] == tod[3] && s[21]
        == tod[4] && s[22] == tod[5] && s[23] == tod[6] && s[24] == tod[7]);
    lemma_two_digits_read_back(s, 5, day);
    lemma_two_digits_read_back(s, 12, year / 100);
    lemma_two_digits_read_back(s, 14, year % 100);
    lemma_two_digits_read_back(s, 17, time.0);
    lemma_two_digits_read_back(s, 20, time.1);
    lemma_two_digits_read_back(s, 23, time.2);
    assert(four_digits(s, 12) == Some(year));
    assert(time_at(s, 17) == Some(time));
    assert(s.subrange(0, 3) =~= day_name);
    assert(s.subrange(8, 11) =~= month);
}

/// Whatever format a date was read from, writing it in the preferred format
/// and reading that gives the same record.
pub proof fn preferred_format_reads_back(s: Seq<char>)
    requires
        http_date(s) is Some,
    ensures
        http_date(imf_text(http_date(s)->Some_0)) == http_date(s),
{
    if imf_fixdate(s) is Some {
        let time = time_at(s, 17)->Some_0;
        lemma_parts_read_back(
            s.subrange(0, 3),
            two_digits(s, 5)->Some_0,
            s.subrange(8, 11),
            four_digits(s, 12)->Some_0,
            time,
        );
    } else if rfc850_date(s) is Some {
        let n = s.len() - 24;
        let time = time_at(s, n + 12)->Some_0;
        lemma_parts_read_back(
            s.subrange(0, 3),
            two_digits(s, n + 2)->Some_0,
            s.subrange(n + 5, n + 8),
            full_year(two_digits(s, n + 9)->Some_0),
            time,
        );
    } else {
        let time = time_at(s, 11)->Some_0;
        lemma_parts_read_back(
            s.subrange(0, 3),
            padded_day(s, 8)->Some_0,
            s.subrange(4, 7),
            four_digits(s, 20)->Some_0,
            time,
        );
    }
}

fn day_name_at(s: &Vec<char>, at: usize) -> (r: bool)
    requires
        at + 3 <= s.len(),
    ensures
        r == is_day_name(s@[at as int], s@[at + 1], s@[at + 2]),
{
    let a = s[at];
    let b = s[at + 1];
    let c = s[at + 2];
    (a == 'M' && b == 'o' && c == 'n') || (a == 'T' && b == 'u' && c == 'e') || (a == 'W' && b
        == 'e' && c == 'd') || (a == 'T' && b == 'h' && c == 'u') || (a == 'F' && b == 'r' && c
        == 'i') || (a == 'S' && b == 'a' && c == 't') || (a == 'S' && b == 'u' && c == 'n')
}

fn month_name_at(s: &Vec<char>, at: usize) -> (r: bool)
    requires
        at + 3 <= s.len(),
    ensures
        r == is_month_name(s@[at as int], s@[at + 1], s@[at + 2]),
{
    let a = s[at];
    let b = s[at + 1];
    let c = s[at + 2];
    (a == 'J' && b == 'a' && c == 'n') || (a == 'F' && b == 'e' && c == 'b') || (a == 'M' && b
        == 'a' && c == 'r') || (a == 'A' && b == 'p' && c == 'r') || (a == 'M' && b == 'a' && c
        == 'y') || (a == 'J' && b == 'u' && c == 'n') || (a == 'J' && b == 'u' && c == 'l') || (a
        == 'A' && b == 'u' && c == 'g') || (a == 'S' && b == 'e' && c == 'p') || (a == 'O' && b
        == 'c' && c == 't') || (a == 'N' && b == 'o' && c == 'v') || (a == 'D' && b == 'e' && c
        == 'c')
}

fn long_day_tail_of(a: char, b: char) -> (r: Vec<char>)
    ensures
        r@ == long_day_tail(a, b),
{
    let mut r: Vec<char> = Vec::new();
    if a == 'T' && b == 'u' {
        r.push('s');
    } else if a == 'W' {
        r.push('n');
        r.push('e');
        r.push('s');
    } else if a == 'T' {
        r.push('r');
        r.push('s');
    } else if a == 'S' && b == 'a' {
        r.push('u');
        r.push('r');
    }
    r.push('d');
    r.push('a');
    r.push('y');
    assert(r@ =~= long_day_tail(a, b));
    r
}

fn matches_at(s: &Vec<char>, lo: usize, hi: usize, pattern: &Vec<char>) -> (r: bool)
    requires
        lo <= hi <= s.len(),
    ensures
        r == (s@.subrange(lo as int, hi as int) == pattern@),
{
    if hi - lo != pattern.len() {
        return false;
    }
    let mut i: usize = 0;
    while i < pattern.len()
        invariant
            i <= pattern.len(),
            hi - lo == pattern.len(),
            lo <= hi <= s.len(),
            forall|k: int| 0 <= k < i ==> s@[lo + k] == pattern@[k],
        decreases pattern.len() - i,
    {
        if s[lo + i] != pattern[i] {
            assert(s@.subrange(lo as int, hi as int)[i as int] != pattern@[i as int]);
            return false;
        }
        i += 1;
    }
    assert(s@.subrange(lo as int, hi as int) =~= pattern@);
    true
}

fn digit_at(s: &Vec<char>, at: usize) -> (r: Option<u8>)
    requires
        at < s.len(),
    ensures
        r is Some == is_digit(s@[at as int]),
        r is Some ==> r->Some_0 == digit_value(s@[at as int]) && r->Some_0 <= 9,
{
    let c = s[at];
    if '0' <= c && c <= '9' {
        Some((c as u8) - 48)
    } else {
        None
    }
}

fn two_digits_at(s: &Vec<char>, at: usize) -> (r: Option<u8>)
    requires
        at + 2 <= s.len(),
    ensures
        match r {
            Some(n) => two_digits(s@, at as int) == Some(n as nat) && n <= 99,
            None => two_digits(s@, at as int) is None,
        },
{
    match digit_at(s, at) {
        None => None,
        Some(high) => match digit_at(s, at + 1) {
            None => None,
            Some(low) => Some(high * 10 + low),
        },
    }
}

fn four_digits_at(s: &Vec<char>, at: usize) -> (r: Option<u16>)
    requires
        at + 4 <= s.len(),
    ensures
        match r {
            Some(n) => four_digits(s@, at as int) == Some(n as nat) && n <= 9999,
            None => four_digits(s@, at as int) is None,
        },
{
    match two_digits_at(s, at) {
        None => None,
        Some(high) => match two_digits_at(s, at + 2) {
            None => None,
            Some(low) => {
                let wide: u16 = high as u16;
                Some(wide * 100 + low as u16)
            },
        },
    }
}

fn read_time(s: &Vec<char>, at: usize) -> (r: Option<(u8, u8, u8)>)
    requires
        at + 8 <= s.len(),
    ensures
        match r {
            Some(t) => time_at(s@, at as int) == Some((t.0 as nat, t.1 as nat, t.2 as nat))
                && t.0 <= 23 && t.1 <= 59 && t.2 <= 60,
            None => time_at(s@, at as int) is None,
        },
{
    if s[at + 2] != ':' || s[at + 5] != ':' {
        return None;
    }
    match two_digits_at(s, at) {
        None => None,
        Some(hour) => match two_digits_at(s, at + 3) {
            None => None,
            Some(minute) => match two_digits_at(s, at + 6) {
                None => None,
                Some(second) => if hour <= 23 && minute <= 59 && second <= 60 {
                    Some((hour, minute, second))
                } else {
                    None
                },
            },
        },
    }
}

fn gmt_found(s: &Vec<char>, at: usize) -> (r: bool)
    requires
        at + 3 <= s.len(),
    ensures
        r == gmt_at(s@, at as int),
{
    s[at] == 'G' && s[at + 1] == 'M' && s[at + 2] == 'T'
}

fn text_between(s: &Vec<char>, lo: usize, hi: usize) -> (out: String)
    requires
        lo <= hi <= s.len(),
    ensures
        out@ == s@.subrange(lo as int, hi as int),
{
    let mut out = String::new();
    let mut i: usize = lo;
    assert(out@ =~= s@.subrange(lo as int, lo as int));
    while i < hi
        invariant
            lo <= i <= hi <= s.len(),
            out@ == s@.subrange(lo as int, i as int),
        decreases hi - i,
    {
        out.push(s[i]);
        assert(out@ =~= s@.subrange(lo as int, i + 1));
        i += 1;
    }
    out
}

fn push_two_digits(out: &mut String, n: u8)
    requires
        n <= 99,
    ensures
        final(out)@ == old(out)@ + two_digit_text(n as nat),
{
    out.push((n / 10 + 48) as char);
    out.push((n % 10 + 48) as char);
    assert(out@ =~= old(out)@ + two_digit_text(n as nat));
}

fn assemble(
    day_name: String,
    day: u8,
    month: String,
    year: u16,
    time: (u8, u8, u8),
) -> (r: HttpDate)
    requires
        day <= 99,
        year <= 9999,
        time.0 <= 99,
        time.1 <= 99,
        time.2 <= 99,
    ensures
        r@ == date_parts(
            day_name@,
            day as nat,
            month@,
            year as nat,
            (time.0 as nat, time.1 as nat, time.2 as nat),
        ),
{
    let mut date = String::new();
    push_two_digits(&mut date, day);
    date.push(' ');
    date.append(month.as_str());
    date.push(' ');
    push_two_digits(&mut date, (year / 100) as u8);
    push_two_digits(&mut date, (year % 100) as u8);
    let mut time_of_day = String::new();
    push_two_digits(&mut time_of_day, time.0);
    time_of_day.push(':');
    push_two_digits(&mut time_of_day, time.1);
    time_of_day.push(':');
    push_two_digits(&mut time_of_day, time.2);
    proof {
        assert(date@ =~= two_digit_text(day as nat) + seq![' '] + month@ + seq![' ']
            + four_digit_text(year as nat));
        assert(time_of_day@ =~= two_digit_text(time.0 as nat) + seq![':'] + two_digit_text(
            time.1 as nat,
        ) + seq![':'] + two_digit_text(time.2 as nat));
    }
    HttpDate {
        day_name,
        date,
        day,
        month,
        year,
        time_of_day,
        hour: time.0,
        minute: time.1,
        second: time.2,
    }
}

/// Reads a date in the preferred format.
pub fn read_imf_fixdate(s: &Vec<char>) -> (r: Option<HttpDate>)
    ensures
        match r {
            Some(d) => imf_fixdate(s@) == Some(d@),
            None => imf_fixdate(s@) is None,
        },
{
    if s.len() != 29 {
        return None;
    }
    if !(day_name_at(s, 0) && s[3] == ',' && s[4] == ' ' && s[7] == ' ' && month_name_at(s, 8)
        && s[11] == ' ' && s[16] == ' ' && s[25] == ' ' && gmt_found(s, 26)) {
        return None;
    }
    let day = match two_digits_at(s, 5) {
        None => { return None; },
        Some(day) => day,
    };
    let year = match four_digits_at(s, 12) {
        None => { return None; },
        Some(year) => year,
    };
    let time = match read_time(s, 17) {
        None => { return None; },
        Some(time) => time,
    };
    if day < 1 || day > 31 {
        return None;
    }
    Some(assemble(text_between(s, 0, 3), day, text_between(s, 8, 11), year, time))
}

/// Reads a date in the older format with the day's full name.
pub fn read_rfc850_date(s: &Vec<char>) -> (r: Option<HttpDate>)
    ensures
        match r {
            Some(d) => rfc850_date(s@) == Some(d@),
            None => rfc850_date(s@) is None,
        },
{
    if s.len() < 30 {
        return None;
    }
    let n: usize = s.len() - 24;
    if !day_name_at(s, 0) {
        return None;
    }
    let tail = long_day_tail_of(s[0], s[1]);
    if !(matches_at(s, 3, n, &tail) && s[n] == ',' && s[n + 1] == ' ' && s[n + 4] == '-'
        && month_name_at(s, n + 5) && s[n + 8] == '-' && s[n + 11] == ' ' && s[n + 20] == ' '
        && gmt_found(s, n + 21)) {
        return None;
    }
    let day = match two_digits_at(s, n + 2) {
        None => { return None; },
        Some(day) => day,
    };
    let short = match two_digits_at(s, n + 9) {
        None => { return None; },
        Some(short) => short,
    };
    let time = match read_time(s, n + 12) {
        None => { return None; },
        Some(time) => time,
    };
    if day < 1 || day > 31 {
        return None;
    }
    let year: u16 = if short >= 70 {
        1900 + short as u16
    } else {
        2000 + short as u16
    };
    Some(assemble(text_between(s, 0, 3), day, text_between(s, n + 5, n + 8), year, time))
}

/// Reads a date in the format of the C library.
pub fn read_asctime_date(s: &Vec<char>) -> (r: Option<HttpDate>)
    ensures
        match r {
            Some(d) => asctime_date(s@) == Some(d@),
            None => asctime_date(s@) is None,
        },
{
    if s.len() != 24 {
        return None;
    }
    if !(day_name_at(s, 0) && s[3] == ' ' && month_name_at(s, 4) && s[7] == ' ' && s[10] == ' '
        && s[19] == ' ') {
        return None;
    }
    let day = if s[8] == ' ' {
        match digit_at(s, 9) {
            None => { return None; },
            Some(day) => day,
        }
    } else {
        match two_digits_at(s, 8) {
            None => { return None; },
            Some(day) => day,
        }
    };
    let year = match four_digits_at(s, 20) {
        None => { return None; },
        Some(year) => year,
    };
    let time = match read_time(s, 11) {
        None => { return None; },
        Some(time) => time,
    };
    if day < 1 || day > 31 {
        return None;
    }
    Some(assemble(text_between(s, 0, 3), day, text_between(s, 4, 7), year, time))
}

impl HttpDate {
    /// Reads a date in any of the three formats. The record that comes back
    /// is the same whichever format the date came in.
    pub fn from_str(v: &str) -> (r: Option<HttpDate>)
        ensures
            match r {
                Some(d) => http_date(v@) == Some(d@),
                None => http_date(v@) is None,
            },
    {
        let text = chars_of(v);
        match read_imf_fixdate(&text) {
            Some(d) => Some(d),
            None => match read_rfc850_date(&text) {
                Some(d) => Some(d),
                None => read_asctime_date(&text),
            },
        }
    }

    /// Writes the date in the preferred format, from the texts that the
    /// record holds.
    pub fn to_imf_fixdate(&self) -> (s: String)
        ensures
            s@ == imf_text(self@),
    {
        let mut out = String::new();
        out.append(self.day_name.as_str());
        out.push(',');
        out.push(' ');
        out.append(self.date.as_str());
        out.push(' ');
        out.append(self.time_of_day.as_str());
        out.push(' ');
        proof {
            reveal_strlit("GMT");
        }
        out.append(GMT);
        assert(out@ =~= imf_text(self@));
        out
    }
}

} // verus!
