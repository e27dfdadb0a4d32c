use vstd::prelude::*;

verus! {

/// An instant in UTC, held as a calendar date and a time of day at
/// second resolution, exactly what the store document records.
#[derive(Clone, Copy, Debug, PartialEq, Eq, Structural)]
pub struct Timestamp {
    pub year: u16,
    pub month: u8,
    pub day: u8,
    pub hour: u8,
    pub minute: u8,
    pub second: u8,
}

pub open spec fn is_leap_year(y: int) -> bool {
    y % 4 == 0 && (y % 100 != 0 || y % 400 == 0)
}

pub open spec fn spec_days_in_month(y: int, m: int) -> int {
    if m == 2 {
        if is_leap_year(y) {
            29
        } else {
            28
        }
    } else if m == 4 || m == 6 || m == 9 || m == 11 {
        30
    } else {
        31
    }
}

/// Number of days in the given month of the proleptic Gregorian calendar.
pub fn days_in_month(year: u16, month: u8) -> (r: u8)
    ensures
        r == spec_days_in_month(year as int, month as int),
{
    if month == 2 {
        if year % 4 == 0 && (year % 100 != 0 || year % 400 == 0) {
            29
        } else {
            28
        }
    } else if month == 4 || month == 6 || month == 9 || month == 11 {
        30
    } else {
        31
    }
}

impl Timestamp {
    /// A calendar-valid instant with a four-digit year.
    pub open spec fn valid(self) -> bool {
        &&& 1 <= self.year <= 9999
        &&& 1 <= self.month <= 12
        &&& 1 <= self.day <= spec_days_in_month(self.year as int, self.month as int)
        &&& self.hour < 24
        &&& self.minute < 60
        &&& self.second < 60
    }

    /// Seconds since the Unix epoch, by the standard civil-calendar
    /// day count (eras of 400 years, 146097 days each).
    pub open spec fn spec_unix_secs(self) -> int {
        let y: int = if self.month <= 2 {
            self.year - 1
        } else {
            self.year as int
        };
        let era: int = y / 400;
        let yoe: int = y % 400;
        let mp: int = if self.month > 2 {
            self.month - 3
        } else {
            self.month + 9
        };
        let doy: int = (153 * mp + 2) / 5 + self.day - 1;
        let doe: int = yoe * 365 + yoe / 4 - yoe / 100 + doy;
        let days: int = era * 146097 + doe - 719468;
        days * 86400 + self.hour * 3600 + self.minute * 60 + self.second
    }

    /// Seconds since the Unix epoch (negative before 1970).
    pub fn unix_secs(&self) -> (r: i64)
        requires
            self.valid(),
        ensures
            r == self.spec_unix_secs(),
    {
        let y: u64 = if self.month <= 2 {
            self.year as u64 - 1
        } else {
            self.year as u64
        };
        let era: u64 = y / 400;
        let yoe: u64 = y % 400;
        proof {
            assert(era <= 24 && yoe <= 399) by (nonlinear_arith)
                requires
                    y <= 9999,
                    era == y as int / 400,
                    yoe == y as int % 400,
            ;
        }
        let mp: u64 = if self.month > 2 {
            self.month as u64 - 3
        } else {
            self.month as u64 + 9
        };
        let doy: u64 = (153 * mp + 2) / 5 + self.day as u64 - 1;
        let doe: u64 = yoe * 365 + yoe / 4 - yoe / 100 + doy;
        let days: i64 = (era * 146097 + doe) as i64 - 719468;
        days * 86400 + self.hour as i64 * 3600 + self.minute as i64 * 60 + self.second as i64
    }
}

/// The decimal digit character for `v mod 10`.
pub open spec fn spec_digit(v: int) -> u8 {
    (48 + v % 10) as u8
}

/// The 20-byte RFC 3339 rendering `YYYY-MM-DDTHH:MM:SSZ`.
pub open spec fn spec_rfc3339(t: Timestamp) -> Seq<u8> {
    seq![
        spec_digit(t.year as int / 1000),
        spec_digit(t.year as int / 100),
        spec_digit(t.year as int / 10),
        spec_digit(t.year as int),
        45u8,
        spec_digit(t.month as int / 10),
        spec_digit(t.month as int),
        45u8,
        spec_digit(t.day as int / 10),
        spec_digit(t.day as int),
        84u8,
        spec_digit(t.hour as int / 10),
        spec_digit(t.hour as int),
        58u8,
        spec_digit(t.minute as int / 10),
        spec_digit(t.minute as int),
        58u8,
        spec_digit(t.second as int / 10),
        spec_digit(t.second as int),
        90u8,
    ]
}

/// Renders the instant as RFC 3339 text.
#[verifier::rlimit(50)]
pub fn render_rfc3339(t: &Timestamp) -> (r: Vec<u8>)
    requires
        t.valid(),
    ensures
        r@ == spec_rfc3339(*t),
{
    let mut out: Vec<u8> = Vec::new();
    out.push((48 + (t.year / 1000) % 10) as u8);
    out.push((48 + (t.year / 100) % 10) as u8);
    out.push((48 + (t.year / 10) % 10) as u8);
    out.push((48 + t.year % 10) as u8);
    out.push(45);
    out.push(48 + (t.month / 10) % 10);
    out.push(48 + t.month % 10);
    out.push(45);
    out.push(48 + (t.day / 10) % 10);
    out.push(48 + t.day % 10);
    out.push(84);
    out.push(48 + (t.hour / 10) % 10);
    out.push(48 + t.hour % 10);
    out.push(58);
    out.push(48 + (t.minute / 10) % 10);
    out.push(48 + t.minute % 10);
    out.push(58);
    out.push(48 + (t.second / 10) % 10);
    out.push(48 + t.second % 10);
    out.push(90);
    proof {
        assert(out@ =~= spec_rfc3339(*t));
    }
    out
}

/// Each digit of a two-digit group is recovered by division and remainder.
proof fn lemma_decompose2(a: int, b: int)
    requires
        0 <= a <= 9,
        0 <= b <= 9,
    ensures
        (a * 10 + b) / 10 % 10 == a,
        (a * 10 + b) % 10 == b,
{
    assert((a * 10 + b) / 10 % 10 == a && (a * 10 + b) % 10 == b) by (nonlinear_arith)
        requires
            0 <= a <= 9,
            0 <= b <= 9,
    ;
}

/// Each digit of a four-digit group is recovered by division and remainder.
proof fn lemma_decompose4(a: int, b: int, c: int, d: int)
    requires
        0 <= a <= 9,
        0 <= b <= 9,
        0 <= c <= 9,
        0 <= d <= 9,
    ensures
        (a * 1000 + b * 100 + c * 10 + d) / 1000 % 10 == a,
        (a * 1000 + b * 100 + c * 10 + d) / 100 % 10 == b,
        (a * 1000 + b * 100 + c * 10 + d) / 10 % 10 == c,
        (a * 1000 + b * 100 + c * 10 + d) % 10 == d,
{
    let n = a * 1000 + b * 100 + c * 10 + d;
    assert(n / 1000 % 10 == a && n / 100 % 10 == b && n / 10 % 10 == c && n % 10 == d)
        by (nonlinear_arith)
        requires
            n == a * 1000 + b * 100 + c * 10 + d,
            0 <= a <= 9,
            0 <= b <= 9,
            0 <= c <= 9,
            0 <= d <= 9,
    ;
}

/// A two-digit value is the sum of its recovered digits.
proof fn lemma_recompose2(v: int)
    requires
        0 <= v <= 99,
    ensures
        (v / 10 % 10) * 10 + v % 10 == v,
{
    assert((v / 10 % 10) * 10 + v % 10 == v) by (nonlinear_arith)
        requires
            0 <= v <= 99,
    ;
}

/// A four-digit value is the sum of its recovered digits.
proof fn lemma_recompose4(v: int)
    requires
        0 <= v <= 9999,
    ensures
        (v / 1000 % 10) * 1000 + (v / 100 % 10) * 100 + (v / 10 % 10) * 10 + v % 10 == v,
{
    assert((v / 1000 % 10) * 1000 + (v / 100 % 10) * 100 + (v / 10 % 10) * 10 + v % 10 == v)
        by (nonlinear_arith)
        requires
            0 <= v <= 9999,
    ;
}

/// Parses RFC 3339 text of the exact form `YYYY-MM-DDTHH:MM:SSZ`.
///
/// The contract pins the function in both directions: a parse succeeds
/// exactly on the rendering of a valid instant, and returns that
/// instant; on all other input it returns `None`.
pub fn parse_rfc3339(s: &[u8]) -> (r: Option<Timestamp>)
    ensures
        r matches Some(t) ==> t.valid() && s@ == spec_rfc3339(t),
        forall|t: Timestamp| t.valid() && s@ == spec_rfc3339(t) ==> r == Some(t),
{
    if s.len() != 20 {
        return None;
    }
    if !(s[4] == 45 && s[7] == 45 && s[10] == 84 && s[13] == 58 && s[16] == 58 && s[19] == 90) {
        return None;
    }
    let digits_ok = 48 <= s[0] && s[0] <= 57 && 48 <= s[1] && s[1] <= 57 && 48 <= s[2] && s[2] <= 57
        && 48 <= s[3] && s[3] <= 57 && 48 <= s[5] && s[5] <= 57 && 48 <= s[6] && s[6] <= 57 && 48
        <= s[8] && s[8] <= 57 && 48 <= s[9] && s[9] <= 57 && 48 <= s[11] && s[11] <= 57 && 48
        <= s[12] && s[12] <= 57 && 48 <= s[14] && s[14] <= 57 && 48 <= s[15] && s[15] <= 57 && 48
        <= s[17] && s[17] <= 57 && 48 <= s[18] && s[18] <= 57;
    if !digits_ok {
        return None;
    }
    let year: u16 = (s[0] - 48) as u16 * 1000 + (s[1] - 48) as u16 * 100 + (s[2] - 48) as u16 * 10
        + (s[3] - 48) as u16;
    let month: u8 = (s[5] - 48) * 10 + (s[6] - 48);
    let day: u8 = (s[8] - 48) * 10 + (s[9] - 48);
    let hour: u8 = (s[11] - 48) * 10 + (s[12] - 48);
    let minute: u8 = (s[14] - 48) * 10 + (s[15] - 48);
    let second: u8 = (s[17] - 48) * 10 + (s[18] - 48);
    let t = Timestamp { year, month, day, hour, minute, second };
    let in_range = year >= 1 && month >= 1 && month <= 12 && day >= 1 && day <= days_in_month(
        year,
        month,
    ) && hour <= 23 && minute <= 59 && second <= 59;
    proof {
        assert forall|t0: Timestamp| t0.valid() && s@ == spec_rfc3339(t0) implies t0 == t by {
            lemma_recompose4(t0.year as int);
            lemma_recompose2(t0.month as int);
            lemma_recompose2(t0.day as int);
            lemma_recompose2(t0.hour as int);
            lemma_recompose2(t0.minute as int);
            lemma_recompose2(t0.second as int);
        }
    }
    if in_range {
        proof {
            lemma_decompose4((s@[0] - 48) as int, (s@[1] - 48) as int, (s@[2] - 48) as int, (
            s@[3] - 48) as int);
            lemma_decompose2((s@[5] - 48) as int, (s@[6] - 48) as int);
            lemma_decompose2((s@[8] - 48) as int, (s@[9] - 48) as int);
            lemma_decompose2((s@[11] - 48) as int, (s@[12] - 48) as int);
            lemma_decompose2((s@[14] - 48) as int, (s@[15] - 48) as int);
            lemma_decompose2((s@[17] - 48) as int, (s@[18] - 48) as int);
            assert(s@ =~= spec_rfc3339(t));
        }
        Some(t)
    } else {
        None
    }
}

} // verus!
