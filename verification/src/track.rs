//! The performance control chart: one CSV line per run, time stamps, and the trend report.

use crate::benchmark::InferenceMetrics;
use crate::float::Double;
use crate::text;
use vstd::prelude::*;
use vstd::string::*;

verus! {

/// The first line of a history file.
pub const HISTORY_HEADER: &'static str = "utc,commit,dirty,note,backend,threads,quant,prompt_tokens,prefill_tps,decode_tokens,decode_tps,decode_ms_per_token,load_ms";

/// A year with a 29th of February.
pub open spec fn is_leap(year: int) -> bool {
    year % 4 == 0 && (year % 100 != 0 || year % 400 == 0)
}

/// The number of days of a month.
pub open spec fn days_in_month(year: int, month: int) -> int {
    if month == 2 {
        if is_leap(year) {
            29
        } else {
            28
        }
    } else if month == 4 || month == 6 || month == 9 || month == 11 {
        30
    } else {
        31
    }
}

/// The number of days of a year before one of its months.
pub open spec fn days_before_month(year: int, month: int) -> int
    decreases month,
{
    if month <= 1 {
        0
    } else {
        days_before_month(year, month - 1) + days_in_month(year, month - 1)
    }
}

/// The number of days from the start of year 0 to the start of a year.
pub open spec fn days_before_year(year: int) -> int {
    365 * year + (year + 3) / 4 - (year + 99) / 100 + (year + 399) / 400
}

/// The number of days from 1970-01-01 to a date of the Gregorian calendar.
pub open spec fn day_number(year: int, month: int, day: int) -> int {
    days_before_year(year) + days_before_month(year, month) + day - 1 - 719528
}

/// The date exists.
pub open spec fn is_date(year: int, month: int, day: int) -> bool {
    1 <= month <= 12 && 1 <= day <= days_in_month(year, month)
}

/// A year is followed by the next after 365 days, or 366 in a leap year, and day 0 is the first of
/// January 1970.
pub proof fn years_follow_one_another(year: int)
    ensures
        days_before_year(year + 1) - days_before_year(year) == (if is_leap(year) {
            366int
        } else {
            365
        }),
        day_number(1970, 1, 1) == 0,
{
    lemma_next_div(year, 4);
    lemma_next_div(year, 100);
    lemma_next_div(year, 400);
    lemma_multiples(year);
    assert((year + 1 + 3) / 4 - (year + 3) / 4 == (if year % 4 == 0 {
        1int
    } else {
        0
    }));
    assert((year + 1 + 99) / 100 - (year + 99) / 100 == (if year % 100 == 0 {
        1int
    } else {
        0
    }));
    assert((year + 1 + 399) / 400 - (year + 399) / 400 == (if year % 400 == 0 {
        1int
    } else {
        0
    }));
    assert(days_before_month(1970, 1) == 0);
    assert(days_before_year(1970) == 719528);
}

/// Every fourth century is a century, and every century is a fourth year.
proof fn lemma_multiples(year: int)
    ensures
        year % 400 == 0 ==> year % 100 == 0,
        year % 100 == 0 ==> year % 4 == 0,
{
}

/// A day has one date: no two dates of the calendar have the same day number.
pub proof fn dates_are_unique(year1: int, month1: int, day1: int, year2: int, month2: int, day2: int)
    requires
        is_date(year1, month1, day1),
        is_date(year2, month2, day2),
        day_number(year1, month1, day1) == day_number(year2, month2, day2),
    ensures
        year1 == year2 && month1 == month2 && day1 == day2,
{
    lemma_months(year1);
    lemma_months(year2);
    years_follow_one_another(year1);
    years_follow_one_another(year2);
    if year1 < year2 {
        lemma_years_grow(year1 + 1, year2);
    } else if year2 < year1 {
        lemma_years_grow(year2 + 1, year1);
    }
}

/// A later year starts on a later day.
proof fn lemma_years_grow(a: int, b: int)
    requires
        a <= b,
    ensures
        days_before_year(a) <= days_before_year(b),
    decreases b - a,
{
    if a < b {
        lemma_years_grow(a, b - 1);
        years_follow_one_another(b - 1);
    }
}

/// Counting one year more crosses a multiple of `d` exactly when the year is one.
proof fn lemma_next_div(year: int, d: int)
    requires
        d > 1,
    ensures
        (year + 1 + (d - 1)) / d - (year + (d - 1)) / d == (if year % d == 0 {
            1int
        } else {
            0
        }),
        (year + (d - 1)) / d == year / d + (if year % d == 0 {
            0int
        } else {
            1
        }),
        (year + d) / d == year / d + 1,
{
    let q = year / d;
    let r = year % d;
    vstd::arithmetic::div_mod::lemma_fundamental_div_mod(year, d);
    assert(year == q * d + r) by (nonlinear_arith)
        requires
            year == d * q + r,
    ;
    assert((q + 1) * d == q * d + d) by (nonlinear_arith);
    vstd::arithmetic::div_mod::lemma_fundamental_div_mod_converse(year + d, d, q + 1, r);
    if r == 0 {
        vstd::arithmetic::div_mod::lemma_fundamental_div_mod_converse(year + (d - 1), d, q, d - 1);
    } else {
        vstd::arithmetic::div_mod::lemma_fundamental_div_mod_converse(
            year + (d - 1),
            d,
            q + 1,
            r - 1,
        );
    }
}

/// The days of the years of an era before year `y` of it; eras start in March.
spec fn era_days(y: int) -> int {
    365 * y + y / 4 - y / 100
}

/// The year of an era that a day of the era lies in.
proof fn lemma_year_of_era(doe: int) -> (yoe: int)
    requires
        0 <= doe < 146097,
    ensures
        yoe == (doe - doe / 1460 + doe / 36524 - doe / 146096) / 365,
        0 <= yoe < 400,
        0 <= doe - era_days(yoe) <= 365,
        doe - era_days(yoe) == 365 ==> is_leap(yoe + 1),
{
    let yoe = (doe - doe / 1460 + doe / 36524 - doe / 146096) / 365;
    if doe == 146096 {
        assert(yoe == 399);
    } else {
        let c = doe / 36524;
        let r = doe % 36524;
        assert(0 <= c <= 3 && doe == 36524 * c + r);
        assert(doe / 146096 == 0);
        let t = r / 1461;
        let s = r % 1461;
        assert(r == 1461 * t + s && 0 <= t <= 24);
        let e: int = if 24 * c + t + s >= 1460 {
            1
        } else {
            0
        };
        let w = 25 * c + t + e;
        assert(doe == 1460 * w + (24 * c + t + s - 1460 * e));
        vstd::arithmetic::div_mod::lemma_fundamental_div_mod_converse(
            doe,
            1460,
            w,
            24 * c + t + s - 1460 * e,
        );
        let k: int = if s < 365 {
            0
        } else if s < 730 {
            1
        } else if s < 1095 {
            2
        } else {
            3
        };
        let y = 100 * c + 4 * t + k;
        let n = doe - w + c;
        assert(n == 365 * y + (s - e - 365 * k));
        assert(0 <= s - e - 365 * k < 365);
        vstd::arithmetic::div_mod::lemma_fundamental_div_mod_converse(n, 365, y, s - e - 365 * k);
        assert(yoe == y);
        vstd::arithmetic::div_mod::lemma_fundamental_div_mod_converse(y, 4, 25 * c + t, k);
        vstd::arithmetic::div_mod::lemma_fundamental_div_mod_converse(y, 100, c, 4 * t + k);
        assert(era_days(y) == 36524 * c + 1461 * t + 365 * k);
        assert(doe - era_days(y) == s - 365 * k);
        if s - 365 * k == 365 {
            assert(k == 3 && s == 1460);
            assert(t < 24);
            vstd::arithmetic::div_mod::lemma_fundamental_div_mod_converse(
                y + 1,
                4,
                25 * c + t + 1,
                0,
            );
            vstd::arithmetic::div_mod::lemma_fundamental_div_mod_converse(
                y + 1,
                100,
                c,
                4 * t + 4,
            );
        }
    }
    yoe
}

/// The days of a year before a month.
proof fn lemma_months(year: int)
    ensures
        ({
            let leap: int = if is_leap(year) {
                1
            } else {
                0
            };
            &&& days_before_month(year, 1) == 0
            &&& days_before_month(year, 2) == 31
            &&& days_before_month(year, 3) == 59 + leap
            &&& days_before_month(year, 4) == 90 + leap
            &&& days_before_month(year, 5) == 120 + leap
            &&& days_before_month(year, 6) == 151 + leap
            &&& days_before_month(year, 7) == 181 + leap
            &&& days_before_month(year, 8) == 212 + leap
            &&& days_before_month(year, 9) == 243 + leap
            &&& days_before_month(year, 10) == 273 + leap
            &&& days_before_month(year, 11) == 304 + leap
            &&& days_before_month(year, 12) == 334 + leap
        }),
{
    reveal_with_fuel(days_before_month, 13);
}

/// The days before the March of a year, counted from the March of year 0.
proof fn lemma_march(era: int, yoe: int)
    requires
        0 <= yoe < 400,
    ensures
        ({
            let y = yoe + 400 * era;
            let days = 146097 * era + era_days(yoe);
            &&& days_before_year(y) + 59 + (if is_leap(y) {
                1int
            } else {
                0
            }) == days + 60
            &&& days_before_year(y + 1) == days + 366
            &&& is_leap(y + 1) == is_leap(yoe + 1)
        }),
{
    let y = yoe + 400 * era;
    lemma_next_div(y, 4);
    lemma_next_div(y, 100);
    lemma_next_div(y, 400);
    vstd::arithmetic::div_mod::lemma_fundamental_div_mod_converse(
        y,
        4,
        yoe / 4 + 100 * era,
        yoe % 4,
    );
    vstd::arithmetic::div_mod::lemma_fundamental_div_mod_converse(
        y,
        100,
        yoe / 100 + 4 * era,
        yoe % 100,
    );
    vstd::arithmetic::div_mod::lemma_fundamental_div_mod_converse(y, 400, era, yoe);
    let z = yoe + 1;
    vstd::arithmetic::div_mod::lemma_fundamental_div_mod_converse(
        y + 1,
        4,
        z / 4 + 100 * era,
        z % 4,
    );
    vstd::arithmetic::div_mod::lemma_fundamental_div_mod_converse(
        y + 1,
        100,
        z / 100 + 4 * era,
        z % 100,
    );
    vstd::arithmetic::div_mod::lemma_fundamental_div_mod_converse(
        y + 1,
        400,
        z / 400 + era,
        z % 400,
    );
}

/// The quotient and remainder of a division that rounds down.
fn floor_div(a: i64, b: i64) -> (r: (i64, i64))
    requires
        b > 0,
        a > i64::MIN,
    ensures
        a == r.0 * b + r.1,
        0 <= r.1 < b,
        r.0 == a as int / b as int,
        r.1 == a as int % b as int,
{
    let (q, m) = if a >= 0 {
        (a / b, a % b)
    } else {
        let n: i64 = -(a + 1);
        (-(n / b) - 1, b - 1 - n % b)
    };
    proof {
        if a < 0 {
            let n = -(a + 1);
            vstd::arithmetic::div_mod::lemma_fundamental_div_mod(n, b as int);
            assert(n == (n / b as int) * b + n % b as int) by (nonlinear_arith)
                requires
                    n == b * (n / b as int) + n % b as int,
            ;
            assert((-(n / b as int) - 1) * b == -((n / b as int) * b) - b) by (nonlinear_arith);
        } else {
            vstd::arithmetic::div_mod::lemma_fundamental_div_mod(a as int, b as int);
            assert(a == q * b + m) by (nonlinear_arith)
                requires
                    a == b * q + m,
            ;
        }
        vstd::arithmetic::div_mod::lemma_fundamental_div_mod_converse(
            a as int,
            b as int,
            q as int,
            m as int,
        );
    }
    (q, m)
}

/// The date that lies the given number of days after 1970-01-01, or before it where the number is
/// negative.
pub fn civil_from_days(days: i64) -> (date: (i64, u32, u32))
    requires
        days + 719468 <= i64::MAX,
    ensures
        is_date(date.0 as int, date.1 as int, date.2 as int),
        day_number(date.0 as int, date.1 as int, date.2 as int) == days,
{
    let z: i64 = days + 719_468;
    let (era, doe) = floor_div(z, 146_097);
    proof {
        lemma_year_of_era(doe as int);
    }
    let yoe: i64 = (doe - doe / 1460 + doe / 36_524 - doe / 146_096) / 365;
    let y: i64 = yoe + era * 400;
    let doy: i64 = doe - (365 * yoe + yoe / 4 - yoe / 100);
    let mp: i64 = (5 * doy + 2) / 153;
    let d: i64 = doy - (153 * mp + 2) / 5 + 1;
    let m: i64 = if mp < 10 {
        mp + 3
    } else {
        mp - 9
    };
    proof {
        lemma_march(era as int, yoe as int);
        assert(z == 146097 * era + doe);
        let civil = if m <= 2 {
            y + 1
        } else {
            y as int
        };
        lemma_months(civil);
        assert(mp == 0 || mp == 1 || mp == 2 || mp == 3 || mp == 4 || mp == 5 || mp == 6 || mp == 7
            || mp == 8 || mp == 9 || mp == 10 || mp == 11);
    }
    (
        if m <= 2 {
            y + 1
        } else {
            y
        },
        m as u32,
        d as u32,
    )
}

/// The time stamp of a date and a second of the day.
pub open spec fn stamp(year: int, month: int, day: int, second: int) -> Seq<char> {
    text::padded(year as nat, 4).push('-') + text::padded(month as nat, 2).push('-') + text::padded(
        day as nat,
        2,
    ).push('T') + text::padded((second / 3600) as nat, 2).push(':') + text::padded(
        (second % 3600 / 60) as nat,
        2,
    ).push(':') + text::padded((second % 60) as nat, 2).push('Z')
}

/// A number below a power of ten fits its width.
proof fn lemma_padded_width(n: nat)
    ensures
        n < 100 ==> text::padded(n, 2).len() == 2,
        n < 10000 ==> text::padded(n, 4).len() == 4,
{
    reveal_with_fuel(text::padded, 4);
    reveal_with_fuel(text::decimal, 2);
}

/// The time stamp of a number of seconds after the start of 1970, in UTC.
pub fn utc_timestamp(seconds: u64) -> (r: String)
    requires
        seconds <= i64::MAX,
    ensures
        exists|year: int, month: int, day: int|
            {
                &&& is_date(year, month, day)
                &&& #[trigger] day_number(year, month, day) == seconds as int / 86400
                &&& r@ == stamp(year, month, day, seconds as int % 86400)
            },
        seconds < 253_402_300_800 ==> r@.len() == 20,
        r@.last() == 'Z',
{
    let days: i64 = (seconds / 86_400) as i64;
    let second: u64 = seconds % 86_400;
    let (year, month, day) = civil_from_days(days);
    proof {
        lemma_months(year as int);
        if year < 0 {
            lemma_years_grow(year + 1, 0);
            years_follow_one_another(year as int);
        }
        if seconds < 253_402_300_800 && year >= 10000 {
            lemma_years_grow(10000, year as int);
        }
        lemma_padded_width(year as nat);
        lemma_padded_width(month as nat);
        lemma_padded_width(day as nat);
        lemma_padded_width((second / 3600) as nat);
        lemma_padded_width((second % 3600 / 60) as nat);
        lemma_padded_width((second % 60) as nat);
    }
    let mut out = String::new();
    text::push_padded(&mut out, year as u64, 4);
    out.push('-');
    text::push_padded(&mut out, month as u64, 2);
    out.push('-');
    text::push_padded(&mut out, day as u64, 2);
    out.push('T');
    text::push_padded(&mut out, second / 3600, 2);
    out.push(':');
    text::push_padded(&mut out, second % 3600 / 60, 2);
    out.push(':');
    text::push_padded(&mut out, second % 60, 2);
    out.push('Z');
    assert(out@ =~= stamp(year as int, month as int, day as int, second as int));
    assert(day_number(year as int, month as int, day as int) == seconds as int / 86400);
    out
}

/// A text with the characters that would end a field or a line turned into semicolons.
pub open spec fn escaped(s: Seq<char>) -> Seq<char> {
    s.map_values(
        |c: char|
            if c == ',' || c == '\n' || c == '\r' {
                ';'
            } else {
                c
            },
    )
}

/// Turns the characters that would end a field or a line into semicolons.
pub fn escape(value: &str) -> (r: String)
    ensures
        r@ == escaped(value@),
{
    let chars = text::chars_of(value);
    let mut out = String::new();
    for i in 0..chars.len()
        invariant
            chars@ == value@,
            out@ == escaped(value@).take(i as int),
    {
        let c = chars[i];
        if c == ',' || c == '\n' || c == '\r' {
            out.push(';');
        } else {
            out.push(c);
        }
        assert(out@ =~= escaped(value@).take(i + 1));
    }
    assert(escaped(value@).take(value@.len() as int) =~= escaped(value@));
    out
}

/// One row of the control chart. The measured rates and times are held as they are printed.
#[derive(Debug)]
pub struct TrackRecord {
    pub utc: String,
    pub commit: String,
    pub dirty: bool,
    pub note: String,
    pub backend: String,
    pub threads: usize,
    pub quant: String,
    pub prompt_tokens: usize,
    pub prefill_tps: String,
    pub decode_tokens: usize,
    pub decode_tps: String,
    pub decode_ms_per_token: String,
    pub load_ms: String,
}

/// A text that ends neither a field nor a line.
pub open spec fn plain(s: Seq<char>) -> bool {
    !s.contains(',') && !s.contains('\n') && !s.contains('\r')
}

impl TrackRecord {
    /// The fields of the row, in their order.
    pub open spec fn fields(&self) -> Seq<Seq<char>> {
        seq![
            self.utc@,
            self.commit@,
            if self.dirty {
                "dirty"@
            } else {
                "clean"@
            },
            escaped(self.note@),
            escaped(self.backend@),
            text::decimal(self.threads as nat),
            escaped(self.quant@),
            text::decimal(self.prompt_tokens as nat),
            self.prefill_tps@,
            text::decimal(self.decode_tokens as nat),
            self.decode_tps@,
            self.decode_ms_per_token@,
            self.load_ms@,
        ]
    }

    /// The texts that go into the row as they are end neither a field nor a line.
    pub open spec fn tidy(&self) -> bool {
        &&& plain(self.utc@)
        &&& plain(self.commit@)
        &&& plain(self.prefill_tps@)
        &&& plain(self.decode_tps@)
        &&& plain(self.decode_ms_per_token@)
        &&& plain(self.load_ms@)
    }

    /// A record of a measured inference, with no note, backend or quantization named yet. `rates`
    /// holds the printed prefill and decode rates, `times` the printed time per decoded token and
    /// the load time.
    pub fn from_metrics(
        metrics: &InferenceMetrics,
        utc: String,
        commit: String,
        dirty: bool,
        rates: (String, String),
        times: (String, String),
    ) -> (record: TrackRecord)
        ensures
            record.utc@ == utc@,
            record.commit@ == commit@,
            record.dirty == dirty,
            record.note@ == Seq::<char>::empty(),
            record.backend@ == Seq::<char>::empty(),
            record.threads == 0,
            record.quant@ == Seq::<char>::empty(),
            record.prompt_tokens == metrics.prompt_tokens,
            record.prefill_tps@ == rates.0@,
            record.decode_tokens == metrics.generated_tokens,
            record.decode_tps@ == rates.1@,
            record.decode_ms_per_token@ == times.0@,
            record.load_ms@ == times.1@,
    {
        TrackRecord {
            utc,
            commit,
            dirty,
            note: String::new(),
            backend: String::new(),
            threads: 0,
            quant: String::new(),
            prompt_tokens: metrics.prompt_tokens,
            prefill_tps: rates.0,
            decode_tokens: metrics.generated_tokens,
            decode_tps: rates.1,
            decode_ms_per_token: times.0,
            load_ms: times.1,
        }
    }

    /// The row as a line of comma-separated fields.
    pub fn to_csv_line(&self) -> (line: String)
        ensures
            line@ == joined(self.fields()),
    {
        let ghost fields = self.fields();
        assert(fields.take(1)[0] == fields[0]);
        let mut line = String::new();
        line.append(self.utc.as_str());
        assert(line@ =~= joined(fields.take(1)));
        line.push(',');
        line.append(self.commit.as_str());
        proof {
            lemma_joined_step(fields, 1);
        }
        assert(line@ =~= joined(fields.take(2)));
        line.push(',');
        if self.dirty {
            line.append("dirty");
        } else {
            line.append("clean");
        }
        proof {
            lemma_joined_step(fields, 2);
        }
        assert(line@ =~= joined(fields.take(3)));
        line.push(',');
        line.append(escape(self.note.as_str()).as_str());
        proof {
            lemma_joined_step(fields, 3);
        }
        assert(line@ =~= joined(fields.take(4)));
        line.push(',');
        line.append(escape(self.backend.as_str()).as_str());
        proof {
            lemma_joined_step(fields, 4);
        }
        assert(line@ =~= joined(fields.take(5)));
        line.push(',');
        text::push_decimal(&mut line, self.threads as u64);
        proof {
            lemma_joined_step(fields, 5);
        }
        assert(line@ =~= joined(fields.take(6)));
        line.push(',');
        line.append(escape(self.quant.as_str()).as_str());
        proof {
            lemma_joined_step(fields, 6);
        }
        assert(line@ =~= joined(fields.take(7)));
        line.push(',');
        text::push_decimal(&mut line, self.prompt_tokens as u64);
        proof {
            lemma_joined_step(fields, 7);
        }
        assert(line@ =~= joined(fields.take(8)));
        line.push(',');
        line.append(self.prefill_tps.as_str());
        proof {
            lemma_joined_step(fields, 8);
        }
        assert(line@ =~= joined(fields.take(9)));
        line.push(',');
        text::push_decimal(&mut line, self.decode_tokens as u64);
        proof {
            lemma_joined_step(fields, 9);
        }
        assert(line@ =~= joined(fields.take(10)));
        line.push(',');
        line.append(self.decode_tps.as_str());
        proof {
            lemma_joined_step(fields, 10);
        }
        assert(line@ =~= joined(fields.take(11)));
        line.push(',');
        line.append(self.decode_ms_per_token.as_str());
        proof {
            lemma_joined_step(fields, 11);
        }
        assert(line@ =~= joined(fields.take(12)));
        line.push(',');
        line.append(self.load_ms.as_str());
        proof {
            lemma_joined_step(fields, 12);
        }
        assert(line@ =~= joined(fields.take(13)));
        assert(fields.take(13) =~= fields);
        line
    }
}

/// Fields with a comma between each two.
pub open spec fn joined(fields: Seq<Seq<char>>) -> Seq<char>
    decreases fields.len(),
{
    if fields.len() == 0 {
        Seq::empty()
    } else if fields.len() == 1 {
        fields[0]
    } else {
        joined(fields.drop_last()).push(',') + fields.last()
    }
}

/// Fields are joined one by one.
proof fn lemma_joined_step(fields: Seq<Seq<char>>, k: int)
    requires
        1 <= k < fields.len(),
    ensures
        joined(fields.take(k + 1)) == joined(fields.take(k)).push(',') + fields[k],
{
    assert(fields.take(k + 1).drop_last() =~= fields.take(k));
}

/// Decimal digits end neither a field nor a line.
proof fn lemma_decimal_plain(n: nat)
    ensures
        plain(text::decimal(n)),
    decreases n,
{
    if n >= 10 {
        lemma_decimal_plain(n / 10);
        let before = text::decimal(n / 10);
        assert forall|i: int| 0 <= i < text::decimal(n).len() implies {
            let c = #[trigger] text::decimal(n)[i];
            c != ',' && c != '\n' && c != '\r'
        } by {
            if i < before.len() {
                assert(before.contains(before[i]));
            }
        }
    }
}

/// An escaped text ends neither a field nor a line.
proof fn lemma_escaped_plain(s: Seq<char>)
    ensures
        plain(escaped(s)),
{
}

/// The fields of a tidy record end neither a field nor a line.
proof fn lemma_fields_plain(record: &TrackRecord)
    requires
        record.tidy(),
    ensures
        record.fields().len() == 13,
        forall|i: int| 0 <= i < 13 ==> plain(#[trigger] record.fields()[i]),
{
    reveal_strlit("dirty");
    reveal_strlit("clean");
    lemma_decimal_plain(record.threads as nat);
    lemma_decimal_plain(record.prompt_tokens as nat);
    lemma_decimal_plain(record.decode_tokens as nat);
    lemma_escaped_plain(record.note@);
    lemma_escaped_plain(record.backend@);
    lemma_escaped_plain(record.quant@);
}

/// Joined fields without commas are the pieces between the commas.
proof fn lemma_join_splits(fields: Seq<Seq<char>>)
    requires
        fields.len() > 0,
        forall|i: int| 0 <= i < fields.len() ==> !(#[trigger] fields[i]).contains(','),
    ensures
        text::pieces(joined(fields), ',') == fields,
    decreases fields.len(),
{
    if fields.len() == 1 {
        text::lemma_one_piece(fields[0], ',');
        assert(seq![fields[0]] =~= fields);
    } else {
        let front = fields.drop_last();
        assert forall|i: int| 0 <= i < front.len() implies !(#[trigger] front[i]).contains(',') by {
            assert(front[i] == fields[i]);
        }
        lemma_join_splits(front);
        text::lemma_joined_pieces(joined(front), ',', fields.last());
        text::lemma_one_piece(fields.last(), ',');
        assert(front + seq![fields.last()] =~= fields);
    }
}

/// A row splits at its commas into its thirteen fields, whatever its note, backend and quantization
/// hold.
pub proof fn rows_split_into_their_fields(record: &TrackRecord)
    requires
        record.tidy(),
    ensures
        record.fields().len() == 13,
        text::pieces(joined(record.fields()), ',') == record.fields(),
{
    lemma_fields_plain(record);
    lemma_join_splits(record.fields());
}

/// A line without the carriage return that may end it.
pub open spec fn stripped(line: Seq<char>) -> Seq<char> {
    if line.len() > 0 && line.last() == '\r' {
        line.drop_last()
    } else {
        line
    }
}

/// The lines of a text. A line ends with a line feed or with a carriage return and a line feed; the
/// last one may do without.
pub open spec fn lines(s: Seq<char>) -> Seq<Seq<char>> {
    let parts = text::pieces(s, '\n');
    let ended = parts.drop_last().map_values(|line: Seq<char>| stripped(line));
    if parts.last().len() == 0 {
        ended
    } else {
        ended.push(parts.last())
    }
}

/// The lines of a history after its header.
pub open spec fn rows(s: Seq<char>) -> Seq<Seq<char>> {
    if lines(s).len() == 0 {
        lines(s)
    } else {
        lines(s).skip(1)
    }
}

/// The column of a history that holds the decode rate.
pub const DECODE_COLUMN: usize = 10;

/// The decode column of those lines that have one.
pub open spec fn decode_column(table: Seq<Seq<char>>) -> Seq<Seq<char>>
    decreases table.len(),
{
    if table.len() == 0 {
        Seq::empty()
    } else {
        let fields = text::pieces(table.last(), ',');
        if fields.len() > DECODE_COLUMN {
            decode_column(table.drop_last()).push(fields[DECODE_COLUMN as int])
        } else {
            decode_column(table.drop_last())
        }
    }
}

/// The decode rates that a history holds, oldest first.
pub open spec fn decode_history(s: Seq<char>) -> Seq<Seq<char>> {
    decode_column(rows(s))
}

/// What is written to a history for a record: the header first, where the history is new.
pub open spec fn history_entry(fresh: bool, record: &TrackRecord) -> Seq<char> {
    let row = joined(record.fields()).push('\n');
    if fresh {
        HISTORY_HEADER@.push('\n') + row
    } else {
        row
    }
}

/// Renders what is to be appended to a history for a record.
pub fn append_record(fresh: bool, record: &TrackRecord) -> (entry: String)
    ensures
        entry@ == history_entry(fresh, record),
{
    let mut entry = String::new();
    if fresh {
        entry.append(HISTORY_HEADER);
        entry.push('\n');
    }
    entry.append(record.to_csv_line().as_str());
    entry.push('\n');
    assert(entry@ =~= history_entry(fresh, record));
    entry
}

/// Reads the decode rates out of a history, oldest first, as they were printed.
pub fn read_decode_history(history: &str) -> (rates: Vec<String>)
    ensures
        rates@.len() == decode_history(history@).len(),
        forall|i: int|
            0 <= i < rates@.len() ==> (#[trigger] rates@[i])@ == decode_history(history@)[i],
{
    let mut parts = text::split(history, '\n');
    let ghost all = text::pieces(history@, '\n');
    let ghost table = rows(history@);
    proof {
        text::lemma_some_piece(history@, '\n');
    }
    let last: usize = parts.len() - 1;
    let count: usize = if parts[last].len() == 0 {
        last
    } else {
        last + 1
    };
    let mut rates: Vec<String> = Vec::new();
    let mut k: usize = 1;
    while k < count
        invariant
            all == text::pieces(history@, '\n'),
            table == rows(history@),
            parts@.len() == all.len(),
            last == all.len() - 1,
            count == lines(history@).len(),
            count <= last + 1,
            forall|i: int| 0 <= i < parts@.len() ==> (#[trigger] parts@[i])@ == all[i],
            1 <= k,
            k <= count || k == 1,
            rates@.len() == decode_column(table.take(k - 1)).len(),
            forall|i: int|
                0 <= i < rates@.len() ==> (#[trigger] rates@[i])@ == decode_column(
                    table.take(k - 1),
                )[i],
        decreases count - k,
    {
        let line = &parts[k];
        let mut end: usize = line.len();
        if k < last && end > 0 && line[end - 1] == '\r' {
            end = end - 1;
        }
        let cut = vstd::slice::slice_subrange(line.as_slice(), 0, end);
        proof {
            assert(table[k - 1] == lines(history@)[k as int]);
            assert(cut@ =~= table[k - 1]);
            assert(table.take(k as int).drop_last() =~= table.take(k - 1));
        }
        let fields = text::split_chars(cut, ',');
        if fields.len() > DECODE_COLUMN {
            rates.push(text::text_of(&fields[DECODE_COLUMN]));
        }
        k = k + 1;
    }
    proof {
        if count >= 1 {
            assert(table.take(k - 1) =~= table);
        } else {
            assert(table.take(0) =~= table);
        }
    }
    rates
}

/// Joined fields that end neither a field nor a line hold no line end.
proof fn lemma_joined_in_one_line(fields: Seq<Seq<char>>)
    requires
        fields.len() > 0,
        forall|i: int| 0 <= i < fields.len() ==> plain(#[trigger] fields[i]),
    ensures
        !joined(fields).contains('\n'),
        !joined(fields).contains('\r'),
    decreases fields.len(),
{
    if fields.len() > 1 {
        let front = fields.drop_last();
        assert forall|i: int| 0 <= i < front.len() implies plain(#[trigger] front[i]) by {
            assert(front[i] == fields[i]);
        }
        lemma_joined_in_one_line(front);
        let whole = joined(fields);
        let before = joined(front);
        assert(plain(fields[fields.len() - 1]));
        assert forall|i: int| 0 <= i < whole.len() implies #[trigger] whole[i] != '\n' && whole[i]
            != '\r' by {
            if i < before.len() {
                assert(whole[i] == before[i]);
                assert(before.contains(before[i]));
            } else if i > before.len() {
                assert(whole[i] == fields.last()[i - before.len() - 1]);
                assert(fields.last().contains(whole[i]));
            }
        }
    }
}

/// A line that is added to ended lines becomes the last one.
proof fn lemma_added_line(before: Seq<char>, line: Seq<char>)
    requires
        !line.contains('\n'),
        !line.contains('\r'),
    ensures
        lines(before.push('\n') + line.push('\n')) == lines(before.push('\n')).push(line),
        lines(before.push('\n')).len() > 0,
{
    let nothing = Seq::<char>::empty();
    text::lemma_one_piece(line, '\n');
    text::lemma_one_piece(nothing, '\n');
    text::lemma_some_piece(before, '\n');
    text::lemma_joined_pieces(before, '\n', nothing);
    assert(before.push('\n') + nothing =~= before.push('\n'));
    text::lemma_joined_pieces(before, '\n', line);
    let both = before.push('\n') + line;
    text::lemma_joined_pieces(both, '\n', nothing);
    assert(both.push('\n') + nothing =~= before.push('\n') + line.push('\n'));
    let old_parts = text::pieces(before.push('\n'), '\n');
    let new_parts = text::pieces(before.push('\n') + line.push('\n'), '\n');
    assert(old_parts =~= text::pieces(before, '\n').push(nothing));
    assert(new_parts =~= text::pieces(before, '\n').push(line).push(nothing));
    assert(new_parts.drop_last() =~= old_parts.drop_last().push(line));
    assert(stripped(line) == line) by {
        if line.len() > 0 {
            assert(line.contains(line[line.len() - 1]));
        }
    }
    assert(lines(before.push('\n') + line.push('\n')) =~= lines(before.push('\n')).push(line));
}

/// A record that is appended to a history, which is new or ends with a line feed, adds its decode
/// rate to those that are read back, and changes none of them.
pub proof fn appended_records_are_read_back(history: Seq<char>, record: &TrackRecord)
    requires
        record.tidy(),
        history.len() > 0 ==> history.last() == '\n',
    ensures
        history.len() > 0 ==> decode_history(history + history_entry(false, record))
            == decode_history(history).push(record.decode_tps@),
        decode_history(history_entry(true, record)) == seq![record.decode_tps@],
{
    let row = joined(record.fields());
    rows_split_into_their_fields(record);
    lemma_fields_plain(record);
    lemma_joined_in_one_line(record.fields());
    assert(record.fields()[DECODE_COLUMN as int] == record.decode_tps@);
    if history.len() > 0 {
        lemma_added_row(history.drop_last(), record);
        assert(history.drop_last().push('\n') =~= history);
    }
    lemma_added_row(HISTORY_HEADER@, record);
    let nothing = Seq::<char>::empty();
    lemma_header_is_a_line();
    text::lemma_one_piece(HISTORY_HEADER@, '\n');
    text::lemma_one_piece(nothing, '\n');
    text::lemma_joined_pieces(HISTORY_HEADER@, '\n', nothing);
    assert(HISTORY_HEADER@.push('\n') + nothing =~= HISTORY_HEADER@.push('\n'));
    assert(text::pieces(HISTORY_HEADER@.push('\n'), '\n') =~= seq![HISTORY_HEADER@, nothing]);
    assert(rows(HISTORY_HEADER@.push('\n')).len() == 0);
    assert(decode_history(history_entry(true, record)) =~= seq![record.decode_tps@]);
}

/// The header is one line.
proof fn lemma_header_is_a_line()
    ensures
        !HISTORY_HEADER@.contains('\n'),
{
    reveal_strlit(
        "utc,commit,dirty,note,backend,threads,quant,prompt_tokens,prefill_tps,decode_tokens,decode_tps,decode_ms_per_token,load_ms",
    );
}

/// A row that is added to a history adds its decode rate.
proof fn lemma_added_row(before: Seq<char>, record: &TrackRecord)
    requires
        record.tidy(),
    ensures
        decode_history(before.push('\n') + joined(record.fields()).push('\n')) == decode_history(
            before.push('\n'),
        ).push(record.decode_tps@),
{
    let row = joined(record.fields());
    rows_split_into_their_fields(record);
    lemma_fields_plain(record);
    lemma_joined_in_one_line(record.fields());
    lemma_added_line(before, row);
    let old_rows = rows(before.push('\n'));
    let new_rows = rows(before.push('\n') + row.push('\n'));
    assert(new_rows =~= old_rows.push(row));
    assert(new_rows.drop_last() =~= old_rows);
}

/// The lines of the trend report. `previous` is the printed change against the run before, shown
/// where there is one to compare with; `first` the printed change against the first run, shown with
/// its rate.
pub open spec fn trend(
    history: Seq<Double>,
    rate: Seq<char>,
    time: Seq<char>,
    path: Seq<char>,
    previous: Seq<char>,
    first: Seq<char>,
    old_rate: Seq<char>,
) -> Seq<char> {
    let head = "\n  decode: "@ + rate + " tok/s  ("@ + time + " мс/токен)\n"@;
    let against_previous = if has_previous(history) {
        "  к прошлому запуску: "@ + previous + "%\n"@
    } else {
        Seq::empty()
    };
    let against_baseline = if has_baseline(history) {
        "  к baseline:         "@ + first + "%  (было "@ + old_rate + " tok/s)\n"@
    } else {
        Seq::empty()
    };
    let tail = "  история: "@ + path + " ("@ + text::decimal(history.len()) + " записей)\n"@;
    head + against_previous + against_baseline + tail
}

/// There is a run before the last one, and its rate can be compared with.
pub open spec fn has_previous(history: Seq<Double>) -> bool {
    history.len() >= 2 && history[history.len() - 2].above_zero()
}

/// The first run is not the last one, and its rate can be compared with.
pub open spec fn has_baseline(history: Seq<Double>) -> bool {
    history.len() >= 2 && history[0].above_zero()
}

/// Renders the trend. `history` already holds the current run; `change` prints the change of the
/// current rate against an earlier one in percent, and `print` prints an earlier rate.
pub fn format_trend<F: Fn(Double) -> String, G: Fn(Double) -> String>(
    history: &[Double],
    rate: &str,
    time: &str,
    path: &str,
    change: &F,
    print: &G,
) -> (out: String)
    requires
        forall|value: Double| call_requires(*change, (value,)),
        forall|value: Double| call_requires(*print, (value,)),
    ensures
        exists|previous: String, first: String, old_rate: String|
            {
                &&& has_previous(history@) ==> call_ensures(
                    *change,
                    (history@[history@.len() - 2],),
                    previous,
                )
                &&& has_baseline(history@) ==> call_ensures(*change, (history@[0],), first)
                    && call_ensures(*print, (history@[0],), old_rate)
                &&& out@ == #[trigger] trend(history@, rate@, time@, path@, previous@, first@, old_rate@)
            },
{
    let n: usize = history.len();
    let mut out = String::new();
    out.append("\n  decode: ");
    out.append(rate);
    out.append(" tok/s  (");
    out.append(time);
    out.append(" мс/токен)\n");
    let mut previous = String::new();
    if n >= 2 && history[n - 2].is_above_zero() {
        previous = change(history[n - 2]);
        out.append("  к прошлому запуску: ");
        out.append(previous.as_str());
        out.append("%\n");
    }
    let mut first = String::new();
    let mut old_rate = String::new();
    if n >= 2 && history[0].is_above_zero() {
        first = change(history[0]);
        old_rate = print(history[0]);
        out.append("  к baseline:         ");
        out.append(first.as_str());
        out.append("%  (было ");
        out.append(old_rate.as_str());
        out.append(" tok/s)\n");
    }
    out.append("  история: ");
    out.append(path);
    out.append(" (");
    text::push_decimal(&mut out, n as u64);
    out.append(" записей)\n");
    assert(out@ =~= trend(history@, rate@, time@, path@, previous@, first@, old_rate@));
    out
}

/// The calendar: every fourth year is a leap year, but of the centuries only every fourth one. The
/// months have their days, and a day is followed by the next one of its month, the last of a month
/// by the first of the next one, and the last of a year by the first of the next one.
pub proof fn days_follow_one_another(year: int, month: int, day: int)
    requires
        is_date(year, month, day),
    ensures
        year % 4 != 0 ==> !is_leap(year),
        year % 4 == 0 && year % 100 != 0 ==> is_leap(year),
        year % 100 == 0 && year % 400 != 0 ==> !is_leap(year),
        year % 400 == 0 ==> is_leap(year),
        days_in_month(year, month) == (if month == 1 || month == 3 || month == 5 || month == 7
            || month == 8 || month == 10 || month == 12 {
            31int
        } else if month != 2 {
            30
        } else if is_leap(year) {
            29
        } else {
            28
        }),
        day < days_in_month(year, month) ==> is_date(year, month, day + 1) && day_number(
            year,
            month,
            day + 1,
        ) == day_number(year, month, day) + 1,
        day == days_in_month(year, month) && month < 12 ==> day_number(year, month + 1, 1)
            == day_number(year, month, day) + 1,
        day == days_in_month(year, month) && month == 12 ==> day_number(year + 1, 1, 1)
            == day_number(year, month, day) + 1,
        day_number(1970, 1, 1) == 0,
{
    lemma_multiples(year);
    lemma_months(year);
    lemma_months(year + 1);
    years_follow_one_another(year);
}

/// A time stamp of a year with four digits: the digits of year, month, day, hour, minute and second
/// stand in their places and read back, and between them stand the separators.
#[verifier::spinoff_prover]
#[verifier::rlimit(40)]
pub proof fn stamps_read_back(year: int, month: int, day: int, second: int)
    requires
        0 <= year < 10000,
        is_date(year, month, day),
        0 <= second < 86400,
    ensures
        ({
            let s = stamp(year, month, day, second);
            let number = |from: int, to: int|
                s.subrange(from, to).fold_left(
                    0int,
                    |value: int, c: char| 10 * value + (c as int - 48),
                );
            &&& s.len() == 20
            &&& number(0, 4) == year
            &&& s[4] == '-'
            &&& number(5, 7) == month
            &&& s[7] == '-'
            &&& number(8, 10) == day
            &&& s[10] == 'T'
            &&& 3600 * number(11, 13) + 60 * number(14, 16) + number(17, 19) == second
            &&& 0 <= number(14, 16) < 60
            &&& 0 <= number(17, 19) < 60
            &&& s[13] == ':'
            &&& s[16] == ':'
            &&& s[19] == 'Z'
        }),
{
    let s = stamp(year, month, day, second);
    let h = second / 3600;
    let m = second % 3600 / 60;
    let t = second % 60;
    assert(0 <= h < 24 && 0 <= m < 60 && 0 <= t < 60 && 3600 * h + 60 * m + t == second);
    let (y, mo, d, hh, mm, ss) = (
        text::padded(year as nat, 4),
        text::padded(month as nat, 2),
        text::padded(day as nat, 2),
        text::padded(h as nat, 2),
        text::padded(m as nat, 2),
        text::padded(t as nat, 2),
    );
    text::padded_numbers_read_back(year as nat, 4);
    text::padded_numbers_read_back(month as nat, 2);
    text::padded_numbers_read_back(day as nat, 2);
    text::padded_numbers_read_back(h as nat, 2);
    text::padded_numbers_read_back(m as nat, 2);
    text::padded_numbers_read_back(t as nat, 2);
    assert(s.subrange(0, 4) =~= y);
    assert(s.subrange(5, 7) =~= mo);
    assert(s.subrange(8, 10) =~= d);
    assert(s.subrange(11, 13) =~= hh);
    assert(s.subrange(14, 16) =~= mm);
    assert(s.subrange(17, 19) =~= ss);
}

/// What stands in each field of a row. The texts that someone typed are made plain: a comma or a
/// line end in them becomes a semicolon, and nothing else changes.
pub proof fn rows_hold_these_fields(record: &TrackRecord, text: Seq<char>, i: int)
    requires
        0 <= i < text.len(),
    ensures
        record.fields().len() == 13,
        record.fields()[0] == record.utc@,
        record.fields()[1] == record.commit@,
        record.dirty ==> record.fields()[2] == "dirty"@,
        !record.dirty ==> record.fields()[2] == "clean"@,
        record.fields()[3] == escaped(record.note@),
        record.fields()[4] == escaped(record.backend@),
        record.fields()[5] == text::decimal(record.threads as nat),
        record.fields()[6] == escaped(record.quant@),
        record.fields()[7] == text::decimal(record.prompt_tokens as nat),
        record.fields()[8] == record.prefill_tps@,
        record.fields()[9] == text::decimal(record.decode_tokens as nat),
        record.fields()[10] == record.decode_tps@,
        record.fields()[11] == record.decode_ms_per_token@,
        record.fields()[12] == record.load_ms@,
        escaped(text).len() == text.len(),
        text[i] == ',' || text[i] == '\n' || text[i] == '\r' ==> escaped(text)[i] == ';',
        text[i] != ',' && text[i] != '\n' && text[i] != '\r' ==> escaped(text)[i] == text[i],
{
}

/// A line ends with a line feed, or with a carriage return before it; both ends are left out of the
/// line. A last line without an end counts too.
pub proof fn lines_end_with_a_feed(before: Seq<char>, line: Seq<char>)
    requires
        !line.contains('\n'),
        !line.contains('\r'),
    ensures
        lines(before.push('\n') + line.push('\n')) == lines(before.push('\n')).push(line),
        lines(before.push('\n') + line.push('\r').push('\n')) == lines(before.push('\n')).push(
            line,
        ),
        line.len() > 0 ==> lines(before.push('\n') + line) == lines(before.push('\n')).push(line),
        lines(Seq::<char>::empty()) == Seq::<Seq<char>>::empty(),
{
    lemma_added_line(before, line);
    let head = text::pieces(before, '\n');
    let none = Seq::<char>::empty();
    text::lemma_some_piece(before, '\n');
    text::lemma_one_piece(none, '\n');
    assert(before.push('\n') + none =~= before.push('\n'));
    text::lemma_joined_pieces(before, '\n', none);
    let first = text::pieces(before.push('\n'), '\n');
    assert(first == head + seq![none]);
    assert(first.drop_last() =~= head);
    let strip = |l: Seq<char>| stripped(l);
    assert(lines(before.push('\n')) =~= head.map_values(strip));
    // a carriage return before the line feed
    let full = line.push('\r');
    assert(!full.contains('\n')) by {
        if full.contains('\n') {
            let k = choose|k: int| 0 <= k < full.len() && full[k] == '\n';
            if k < line.len() {
                assert(line[k] == '\n');
            }
        }
    }
    text::lemma_one_piece(full, '\n');
    let mid = before.push('\n') + full;
    text::lemma_joined_pieces(before, '\n', full);
    assert(text::pieces(mid, '\n') == head + seq![full]);
    assert(mid.push('\n') + none =~= before.push('\n') + full.push('\n'));
    text::lemma_joined_pieces(mid, '\n', none);
    let parts = text::pieces(before.push('\n') + full.push('\n'), '\n');
    assert(parts == (head + seq![full]) + seq![none]);
    assert(parts.drop_last() =~= head + seq![full]);
    assert(full.drop_last() =~= line);
    assert((head + seq![full]).map_values(strip) =~= head.map_values(strip).push(line));
    // a last line without an end
    if line.len() > 0 {
        text::lemma_one_piece(line, '\n');
        text::lemma_joined_pieces(before, '\n', line);
        let open = text::pieces(before.push('\n') + line, '\n');
        assert(open == head + seq![line]);
        assert(open.drop_last() =~= head);
    }
    assert(text::pieces(none, '\n') == seq![none]);
    assert(text::pieces(none, '\n').drop_last() =~= Seq::<Seq<char>>::empty());
    assert(lines(none) =~= Seq::<Seq<char>>::empty());
}

/// Which comparisons a trend shows: against the run before, where there is one with a rate above
/// zero, and against the first run, where that is another one with a rate above zero.
pub proof fn trends_compare_with_these_runs(history: Seq<Double>)
    ensures
        has_previous(history) <==> history.len() >= 2 && 0 < history[history.len() - 2].bits
            <= 0x7ff0_0000_0000_0000,
        has_baseline(history) <==> history.len() >= 2 && 0 < history[0].bits
            <= 0x7ff0_0000_0000_0000,
{
}

/// A new history starts with the names of its columns; a further record adds its row alone.
pub proof fn histories_start_with_their_columns(record: &TrackRecord)
    ensures
        history_entry(true, record)
            == "utc,commit,dirty,note,backend,threads,quant,prompt_tokens,prefill_tps,decode_tokens,decode_tps,decode_ms_per_token,load_ms"@.push('\n')
            + joined(record.fields()).push('\n'),
        history_entry(false, record) == joined(record.fields()).push('\n'),
{
}

/// What a trend says: the rate and the time per token; the change against the run before and the
/// change against the first run with its rate, each where there is such a run; the file and the
/// number of its records.
pub proof fn trends_say_this(
    history: Seq<Double>,
    rate: Seq<char>,
    time: Seq<char>,
    path: Seq<char>,
    previous: Seq<char>,
    first: Seq<char>,
    old_rate: Seq<char>,
)
    ensures
        ({
            let head = "\n  decode: "@ + rate + " tok/s  ("@ + time + " мс/токен)\n"@;
            let before = "  к прошлому запуску: "@ + previous + "%\n"@;
            let start = "  к baseline:         "@ + first + "%  (было "@ + old_rate + " tok/s)\n"@;
            let tail = "  история: "@ + path + " ("@ + text::decimal(history.len()) + " записей)\n"@;
            let text = trend(history, rate, time, path, previous, first, old_rate);
            let known = |i: int| 0 < history[i].bits <= 0x7ff0_0000_0000_0000;
            &&& history.len() < 2 ==> text == head + tail
            &&& history.len() >= 2 && known(history.len() - 2) && known(0) ==> text == head + before
                + start + tail
            &&& history.len() >= 2 && known(history.len() - 2) && !known(0) ==> text == head + before
                + tail
            &&& history.len() >= 2 && !known(history.len() - 2) && known(0) ==> text == head + start
                + tail
            &&& history.len() >= 2 && !known(history.len() - 2) && !known(0) ==> text == head + tail
        }),
{
    let head = "\n  decode: "@ + rate + " tok/s  ("@ + time + " мс/токен)\n"@;
    let before = "  к прошлому запуску: "@ + previous + "%\n"@;
    let start = "  к baseline:         "@ + first + "%  (было "@ + old_rate + " tok/s)\n"@;
    let none = Seq::<char>::empty();
    assert(head + none =~= head);
    assert(head + before + none =~= head + before);
}

} // verus!
